//! Reading and transforming BigWig and BigBed files: the shared BBI container
//! layout (header, chromosome B+-tree, data-block R-tree, zoom pyramid),
//! coordinate range queries over it, and coordinate-sorted interval
//! arithmetic for merging and gap-filling signal streams.

pub mod bbi;
pub mod bbiread;
pub mod bed;
pub mod bigbedread;
pub mod bigwigread;
pub mod codec;
pub mod compress;
pub mod cirtree;
pub mod floatbits;
pub mod utils;

pub use bbi::{
    BBIFile, BBIFileInfo, BBIHeader, BedEntry, Block, ChromInfo, Endianness, Summary, Value,
    ZoomHeader, ZoomRecord,
};
pub use bbiread::{BBIFileReadInfoError, BBIReadError, ChromIdNotFound, ZoomIntervalError};
pub use bed::{chroms_contains, merged_chrom_sizes, parse_bed_line, BedLine, BedParseError};
pub use bigbedread::{BigBedRead, BigBedReadOpenError};
pub use bigwigread::{BigWigRead, BigWigReadOpenError};
pub use cirtree::{compare_position, overlaps, CirTreeSearchError};
pub use utils::{fill, fill_start_to_end, merge_into, merge_sections_many};
