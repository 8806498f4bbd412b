//! The data model of the BBI container: headers, chromosome info, zoom
//! levels, blocks, and the records the two file variants carry.

use vstd::prelude::*;

verus! {

/// Magic number of a BigWig file, as a native integer.
pub const BIGWIG_MAGIC: u32 = 0x888F_FC26;

/// Magic number of a BigBed file, as a native integer.
pub const BIGBED_MAGIC: u32 = 0x8789_F2EB;

/// Magic number of the chromosome B+-tree header.
pub const CHROM_TREE_MAGIC: u32 = 0x78CA_8C91;

/// Magic number of the CIR-tree (R-tree) header.
pub const CIR_TREE_MAGIC: u32 = 0x2468_ACE0;

/// The two variants of the BBI container.
#[derive(Copy, Clone, Debug, PartialEq, Eq, Structural)]
pub enum BBIFile {
    BigWig,
    BigBed,
}

/// The byte order of every multi-byte field of one file, fixed at open time
/// by inspecting the magic number.
#[derive(Copy, Clone, Debug, PartialEq, Eq, Structural)]
pub enum Endianness {
    Big,
    Little,
}

/// A single interval of signal: bases `start..end` carry the value whose
/// IEEE-754 single-precision bit pattern is `value`.
///
/// Values are carried as raw bit patterns so that interval arithmetic over
/// them is exact; the two encodings of zero (`0x0000_0000` and `0x8000_0000`)
/// are the only patterns that compare equal to `0.0`.
#[derive(Copy, Clone, Debug, PartialEq, Eq, Structural)]
pub struct Value {
    pub start: u32,
    pub end: u32,
    pub value: u32,
}

/// A single BigBed record: bases `start..end` carry a tab-delimited text
/// tail, stored NUL-terminated on disk.
#[derive(Clone, Debug, PartialEq)]
pub struct BedEntry {
    pub start: u32,
    pub end: u32,
    pub rest: String,
}

/// The statistics one zoom slot carries. The four statistics fields hold the
/// IEEE-754 single-precision bit patterns read from or written to disk.
#[derive(Copy, Clone, Debug, PartialEq, Eq, Structural)]
pub struct Summary {
    pub total_items: u64,
    pub bases_covered: u64,
    pub min_val: u32,
    pub max_val: u32,
    pub sum: u32,
    pub sum_squares: u32,
}

/// One record of a zoom level: a summary of the bases `start..end` of the
/// chromosome with id `chrom`.
#[derive(Copy, Clone, Debug, PartialEq, Eq, Structural)]
pub struct ZoomRecord {
    pub chrom: u32,
    pub start: u32,
    pub end: u32,
    pub summary: Summary,
}

/// Header info for a bbi file.
#[derive(Copy, Clone, Debug, PartialEq, Eq, Structural)]
pub struct BBIHeader {
    pub endianness: Endianness,
    pub version: u16,
    pub field_count: u16,
    pub defined_field_count: u16,
    pub zoom_levels: u16,
    pub chromosome_tree_offset: u64,
    pub full_data_offset: u64,
    pub full_index_offset: u64,
    pub auto_sql_offset: u64,
    pub total_summary_offset: u64,
    pub uncompress_buf_size: u32,
}

/// One zoom level: its bin width in bases and where its data and index live
/// in the file.
#[derive(Copy, Clone, Debug, PartialEq, Eq, Structural)]
pub struct ZoomHeader {
    pub reduction_level: u32,
    pub data_offset: u64,
    pub index_offset: u64,
}

/// Information on a chromosome in a bbi file.
#[derive(Clone, Debug)]
pub struct ChromInfo {
    pub name: String,
    pub length: u32,
    pub id: u32,
}

impl PartialEq for ChromInfo {
    /// Two `ChromInfo`s are equal exactly when their names are.
    fn eq(&self, other: &ChromInfo) -> (r: bool) {
        self.name == other.name
    }
}

impl vstd::std_specs::cmp::PartialEqSpecImpl for ChromInfo {
    open spec fn obeys_eq_spec() -> bool {
        true
    }

    open spec fn eq_spec(&self, other: &ChromInfo) -> bool {
        self.name@ == other.name@
    }
}

/// Info on a bbi file.
#[derive(Clone, Debug)]
pub struct BBIFileInfo {
    /// The type of the bbi file - either a bigBed or a bigWig.
    pub filetype: BBIFile,
    /// Header info.
    pub header: BBIHeader,
    /// Info on zooms in the bbi file.
    pub zoom_headers: Vec<ZoomHeader>,
    /// The chromosome info the bbi file is based on.
    pub chrom_info: Vec<ChromInfo>,
}

/// A contiguous, possibly compressed region of the file holding one data
/// section.
#[derive(Copy, Clone, Debug, PartialEq, Eq, Structural)]
pub struct Block {
    pub offset: u64,
    pub size: u64,
}

} // verus!
