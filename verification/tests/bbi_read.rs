use bigtools::{
    compare_position, merged_chrom_sizes, overlaps, parse_bed_line, BBIReadError, BedParseError,
    BigBedRead, BigBedReadOpenError, BigWigRead, BigWigReadOpenError, ChromInfo, Value,
    ZoomIntervalError,
};

const BIGWIG_MAGIC: u32 = 0x888F_FC26;
const BIGBED_MAGIC: u32 = 0x8789_F2EB;
const CHROM_TREE_MAGIC: u32 = 0x78CA_8C91;
const CIR_TREE_MAGIC: u32 = 0x2468_ACE0;

fn p16(v: &mut Vec<u8>, x: u16, le: bool) {
    if le {
        v.extend_from_slice(&x.to_le_bytes());
    } else {
        v.extend_from_slice(&x.to_be_bytes());
    }
}

fn p32(v: &mut Vec<u8>, x: u32, le: bool) {
    if le {
        v.extend_from_slice(&x.to_le_bytes());
    } else {
        v.extend_from_slice(&x.to_be_bytes());
    }
}

fn p64(v: &mut Vec<u8>, x: u64, le: bool) {
    if le {
        v.extend_from_slice(&x.to_le_bytes());
    } else {
        v.extend_from_slice(&x.to_be_bytes());
    }
}

fn zlib(data: &[u8]) -> Vec<u8> {
    let mut c = libdeflater::Compressor::new(libdeflater::CompressionLvl::default());
    let mut out = vec![0u8; c.zlib_compress_bound(data.len())];
    let n = c.zlib_compress(data, &mut out).unwrap();
    out.truncate(n);
    out
}

/// One chromosome tree with a single leaf: name "chr1", id 0, length 1000.
fn chrom_tree(le: bool) -> Vec<u8> {
    let mut t = Vec::new();
    p32(&mut t, CHROM_TREE_MAGIC, le);
    p32(&mut t, 256, le); // block_size
    p32(&mut t, 8, le); // key_size
    p32(&mut t, 8, le); // val_size
    p64(&mut t, 1, le); // item_count
    p64(&mut t, 0, le); // reserved
    t.push(1); // isleaf
    t.push(0);
    p16(&mut t, 1, le); // count
    t.extend_from_slice(b"chr1\0\0\0\0");
    p32(&mut t, 0, le); // id
    p32(&mut t, 1000, le); // length
    t
}

/// A CIR tree with one leaf entry covering chromosome 0, `start..end`,
/// pointing at `(data_offset, data_size)`.
fn cir_tree(le: bool, start: u32, end: u32, data_offset: u64, data_size: u64) -> Vec<u8> {
    let mut t = Vec::new();
    p32(&mut t, CIR_TREE_MAGIC, le);
    p32(&mut t, 256, le); // block_size
    p64(&mut t, 1, le); // item_count
    p32(&mut t, 0, le); // start_chrom_idx
    p32(&mut t, start, le); // start_base
    p32(&mut t, 0, le); // end_chrom_idx
    p32(&mut t, end, le); // end_base
    p64(&mut t, 0, le); // end_file_offset
    p32(&mut t, 512, le); // items_per_slot
    p32(&mut t, 0, le); // reserved
    t.push(1); // isleaf
    t.push(0);
    p16(&mut t, 1, le); // count
    p32(&mut t, 0, le);
    p32(&mut t, start, le);
    p32(&mut t, 0, le);
    p32(&mut t, end, le);
    p64(&mut t, data_offset, le);
    p64(&mut t, data_size, le);
    t
}

/// A bigWig holding one bedGraph section on chr1:
/// `[0,10)=1.0, [10,20)=2.0, [30,40)=3.0`, plus one zoom level of reduction
/// 100 with a single summary slot, and an autosql string at the tail.
fn build_bigwig(le: bool, compressed: bool) -> Vec<u8> {
    let mut section = Vec::new();
    p32(&mut section, 0, le); // chrom_id
    p32(&mut section, 0, le); // chrom_start
    p32(&mut section, 40, le); // chrom_end
    p32(&mut section, 0, le); // item_step
    p32(&mut section, 0, le); // item_span
    section.push(1); // bedGraph
    section.push(0);
    p16(&mut section, 3, le); // item_count
    for (s, e, val) in [(0, 10, 1.0f32), (10, 20, 2.0), (30, 40, 3.0)] {
        p32(&mut section, s, le);
        p32(&mut section, e, le);
        p32(&mut section, val.to_bits(), le);
    }

    let mut zsection = Vec::new();
    p32(&mut zsection, 0, le); // chrom
    p32(&mut zsection, 0, le); // start
    p32(&mut zsection, 100, le); // end
    p32(&mut zsection, 30, le); // bases covered
    p32(&mut zsection, 1.0f32.to_bits(), le); // min
    p32(&mut zsection, 3.0f32.to_bits(), le); // max
    p32(&mut zsection, 60.0f32.to_bits(), le); // sum
    p32(&mut zsection, 140.0f32.to_bits(), le); // sum of squares

    let (block, zblock, ubs) = if compressed {
        (zlib(&section), zlib(&zsection), section.len() as u32)
    } else {
        (section.clone(), zsection.clone(), 0)
    };

    let ct = chrom_tree(le);
    let cto = 64u64 + 24;
    let fdo = cto + ct.len() as u64;
    let zdo = fdo + block.len() as u64;
    let fio = zdo + zblock.len() as u64;
    let cir = cir_tree(le, 0, 40, fdo, block.len() as u64);
    let zio = fio + cir.len() as u64;
    let zcir = cir_tree(le, 0, 100, zdo, zblock.len() as u64);
    let aso = zio + zcir.len() as u64;

    let mut f = Vec::new();
    p32(&mut f, BIGWIG_MAGIC, le);
    p16(&mut f, 4, le); // version
    p16(&mut f, 1, le); // zoom_levels
    p64(&mut f, cto, le);
    p64(&mut f, fdo, le);
    p64(&mut f, fio, le);
    p16(&mut f, 0, le); // field_count
    p16(&mut f, 0, le); // defined_field_count
    p64(&mut f, aso, le);
    p64(&mut f, 0, le); // total_summary_offset
    p32(&mut f, ubs, le);
    p64(&mut f, 0, le); // reserved
    assert_eq!(f.len(), 64);
    // the single zoom header
    p32(&mut f, 100, le); // reduction_level
    p32(&mut f, 0, le);
    p64(&mut f, zdo, le);
    p64(&mut f, zio, le);
    f.extend_from_slice(&ct);
    f.extend_from_slice(&block);
    f.extend_from_slice(&zblock);
    f.extend_from_slice(&cir);
    f.extend_from_slice(&zcir);
    f.extend_from_slice(b"table sample\0");
    f
}

/// A bigBed holding one block with two entries on chr1.
fn build_bigbed(le: bool, zero_zero: bool) -> Vec<u8> {
    let mut block = Vec::new();
    p32(&mut block, 0, le);
    p32(&mut block, if zero_zero { 0 } else { 5 }, le);
    p32(&mut block, if zero_zero { 0 } else { 15 }, le);
    block.extend_from_slice(b"first\t+\0");
    p32(&mut block, 0, le);
    p32(&mut block, 20, le);
    p32(&mut block, 30, le);
    block.extend_from_slice(b"second\0");

    let ct = chrom_tree(le);
    let cto = 64u64;
    let fdo = cto + ct.len() as u64;
    let fio = fdo + block.len() as u64;
    let cir = cir_tree(le, 0, 30, fdo, block.len() as u64);
    let aso = fio + cir.len() as u64;

    let mut f = Vec::new();
    p32(&mut f, BIGBED_MAGIC, le);
    p16(&mut f, 4, le);
    p16(&mut f, 0, le); // zoom_levels
    p64(&mut f, cto, le);
    p64(&mut f, fdo, le);
    p64(&mut f, fio, le);
    p16(&mut f, 3, le);
    p16(&mut f, 3, le);
    p64(&mut f, aso, le);
    p64(&mut f, 0, le);
    p32(&mut f, 0, le); // uncompressed
    p64(&mut f, 0, le);
    assert_eq!(f.len(), 64);
    f.extend_from_slice(&ct);
    f.extend_from_slice(&block);
    f.extend_from_slice(&cir);
    f.extend_from_slice(b"bed3\0");
    f
}

/// A bigWig whose chromosome tree lists two names out of order and no data.
fn build_bigwig_unsorted_chroms(le: bool) -> Vec<u8> {
    let mut ct = Vec::new();
    p32(&mut ct, CHROM_TREE_MAGIC, le);
    p32(&mut ct, 256, le);
    p32(&mut ct, 8, le); // key_size
    p32(&mut ct, 8, le); // val_size
    p64(&mut ct, 2, le);
    p64(&mut ct, 0, le);
    ct.push(1);
    ct.push(0);
    p16(&mut ct, 2, le);
    ct.extend_from_slice(b"chrB\0\0\0\0");
    p32(&mut ct, 0, le);
    p32(&mut ct, 500, le);
    ct.extend_from_slice(b"chrA\0\0\0\0");
    p32(&mut ct, 1, le);
    p32(&mut ct, 700, le);

    let cto = 64u64;
    let fio = cto + ct.len() as u64;
    let mut cir = Vec::new();
    p32(&mut cir, CIR_TREE_MAGIC, le);
    p32(&mut cir, 256, le);
    p64(&mut cir, 0, le);
    p32(&mut cir, 0, le);
    p32(&mut cir, 0, le);
    p32(&mut cir, 0, le);
    p32(&mut cir, 0, le);
    p64(&mut cir, 0, le);
    p32(&mut cir, 512, le);
    p32(&mut cir, 0, le);
    cir.push(1);
    cir.push(0);
    p16(&mut cir, 0, le); // an empty leaf

    let mut f = Vec::new();
    p32(&mut f, BIGWIG_MAGIC, le);
    p16(&mut f, 4, le);
    p16(&mut f, 0, le);
    p64(&mut f, cto, le);
    p64(&mut f, fio, le); // full_data_offset, unused here
    p64(&mut f, fio, le);
    p16(&mut f, 0, le);
    p16(&mut f, 0, le);
    p64(&mut f, 0, le);
    p64(&mut f, 0, le);
    p32(&mut f, 0, le);
    p64(&mut f, 0, le);
    f.extend_from_slice(&ct);
    f.extend_from_slice(&cir);
    f
}

fn v(start: u32, end: u32, value: f32) -> Value {
    Value {
        start,
        end,
        value: value.to_bits(),
    }
}

#[test]
fn chroms_come_back_sorted_by_name() {
    let bw = BigWigRead::open(build_bigwig_unsorted_chroms(true)).unwrap();
    let chroms = bw.get_chroms();
    let names: Vec<&str> = chroms.iter().map(|c| c.name.as_str()).collect();
    assert_eq!(names, vec!["chrA", "chrB"]);
    assert_eq!(chroms[0].id, 1);
    assert_eq!(chroms[0].length, 700);
    assert_eq!(chroms[1].id, 0);
    assert_eq!(chroms[1].length, 500);
    // An empty index yields an empty query result, not an error.
    assert!(bw.get_interval("chrB", 0, 500).unwrap().is_empty());
}

#[test]
fn range_filter() {
    let bw = BigWigRead::open(build_bigwig(true, false)).unwrap();
    let items = bw.get_interval("chr1", 5, 15).unwrap();
    let vals: Vec<Value> = items.into_iter().map(|r| r.unwrap()).collect();
    assert_eq!(vals, vec![v(0, 10, 1.0), v(10, 20, 2.0)]);
}

#[test]
fn full_range_query() {
    let bw = BigWigRead::open(build_bigwig(true, false)).unwrap();
    let items = bw.get_interval("chr1", 0, 1000).unwrap();
    let vals: Vec<Value> = items.into_iter().map(|r| r.unwrap()).collect();
    assert_eq!(vals, vec![v(0, 10, 1.0), v(10, 20, 2.0), v(30, 40, 3.0)]);
}

#[test]
fn compressed_blocks_decode() {
    let bw = BigWigRead::open(build_bigwig(true, true)).unwrap();
    let items = bw.get_interval("chr1", 0, 1000).unwrap();
    let vals: Vec<Value> = items.into_iter().map(|r| r.unwrap()).collect();
    assert_eq!(vals, vec![v(0, 10, 1.0), v(10, 20, 2.0), v(30, 40, 3.0)]);
}

#[test]
fn endianness_equivalent() {
    for compressed in [false, true] {
        let le = BigWigRead::open(build_bigwig(true, compressed)).unwrap();
        let be = BigWigRead::open(build_bigwig(false, compressed)).unwrap();
        let vle: Vec<Value> = le
            .get_interval("chr1", 0, 1000)
            .unwrap()
            .into_iter()
            .map(|r| r.unwrap())
            .collect();
        let vbe: Vec<Value> = be
            .get_interval("chr1", 0, 1000)
            .unwrap()
            .into_iter()
            .map(|r| r.unwrap())
            .collect();
        assert_eq!(vle, vbe);
        assert_eq!(le.get_info().header.version, be.get_info().header.version);
    }
}

#[test]
fn invalid_chromosome() {
    let bw = BigWigRead::open(build_bigwig(true, false)).unwrap();
    match bw.get_interval("chrZZ", 0, 100) {
        Err(BBIReadError::InvalidChromosome(name)) => assert_eq!(name, "chrZZ"),
        _ => panic!("expected an invalid-chromosome error"),
    }
}

#[test]
fn wrong_magic_refused() {
    let garbage = vec![0u8; 128];
    assert!(matches!(
        BigWigRead::open(garbage.clone()),
        Err(BigWigReadOpenError::NotABigWig)
    ));
    assert!(matches!(
        BigBedRead::open(garbage),
        Err(BigBedReadOpenError::NotABigBed)
    ));
    // A bigBed is not a bigWig, and the other way round.
    assert!(matches!(
        BigWigRead::open(build_bigbed(true, false)),
        Err(BigWigReadOpenError::NotABigWig)
    ));
    assert!(matches!(
        BigBedRead::open(build_bigwig(true, false)),
        Err(BigBedReadOpenError::NotABigBed)
    ));
}

#[test]
fn truncated_file_refused() {
    let short = build_bigwig(true, false)[..40].to_vec();
    assert!(matches!(
        BigWigRead::open(short),
        Err(BigWigReadOpenError::IoError(_))
    ));
}

#[test]
fn zoom_query() {
    let bw = BigWigRead::open(build_bigwig(true, false)).unwrap();
    let items = bw.get_zoom_interval("chr1", 0, 1000, 100).unwrap();
    let recs: Vec<_> = items.into_iter().map(|r| r.unwrap()).collect();
    assert_eq!(recs.len(), 1);
    assert_eq!(recs[0].chrom, 0);
    assert_eq!(recs[0].start, 0);
    assert_eq!(recs[0].end, 100);
    assert_eq!(recs[0].summary.bases_covered, 30);
    assert_eq!(recs[0].summary.min_val, 1.0f32.to_bits());
    assert_eq!(recs[0].summary.max_val, 3.0f32.to_bits());
    assert_eq!(recs[0].summary.sum, 60.0f32.to_bits());

    assert!(matches!(
        bw.get_zoom_interval("chr1", 0, 1000, 999),
        Err(ZoomIntervalError::ReductionLevelNotFound)
    ));
}

#[test]
fn bigbed_entries() {
    let bb = BigBedRead::open(build_bigbed(true, false)).unwrap();
    let items = bb.get_interval("chr1", 0, 1000).unwrap();
    let entries: Vec<_> = items.into_iter().map(|r| r.unwrap()).collect();
    assert_eq!(entries.len(), 2);
    assert_eq!(entries[0].start, 5);
    assert_eq!(entries[0].end, 15);
    assert_eq!(entries[0].rest, "first\t+");
    assert_eq!(entries[1].start, 20);
    assert_eq!(entries[1].end, 30);
    assert_eq!(entries[1].rest, "second");
}

#[test]
fn bigbed_zero_zero_record_is_a_file_error() {
    let bb = BigBedRead::open(build_bigbed(true, true)).unwrap();
    let items = bb.get_interval("chr1", 0, 1000).unwrap();
    assert_eq!(items.len(), 1);
    assert!(matches!(items[0], Err(BBIReadError::InvalidFile(_))));
}

#[test]
fn autosql_text() {
    let bb = BigBedRead::open(build_bigbed(true, false)).unwrap();
    assert_eq!(bb.autosql().unwrap(), "bed3");
}

#[test]
fn chrom_list() {
    let bw = BigWigRead::open(build_bigwig(true, false)).unwrap();
    let chroms = bw.get_chroms();
    assert_eq!(chroms.len(), 1);
    assert_eq!(chroms[0].name, "chr1");
    assert_eq!(chroms[0].length, 1000);
}

#[test]
fn position_comparison() {
    assert_eq!(compare_position(0, 5, 0, 5), 0);
    assert_eq!(compare_position(0, 9, 1, 2), -1);
    assert_eq!(compare_position(2, 0, 1, 999), 1);
    assert_eq!(compare_position(1, 3, 1, 7), -1);
    assert!(overlaps(0, 5, 15, 0, 0, 0, 10));
    assert!(!overlaps(1, 5, 15, 0, 0, 0, 10));
    assert!(overlaps(0, 10, 10, 0, 10, 0, 20));
}

#[test]
fn bed_line_parsing() {
    let line = b"chr7\t100\t200\tname\t0\t+\n".to_vec();
    let parsed = parse_bed_line(&line).unwrap();
    assert_eq!(parsed.chrom, "chr7");
    assert_eq!(parsed.start, 100);
    assert_eq!(parsed.end, 200);

    assert!(matches!(
        parse_bed_line(&b"chronly\n".to_vec()),
        Err(BedParseError::MissingStart)
    ));
    assert!(matches!(
        parse_bed_line(&b"chr1\tabc\t5\n".to_vec()),
        Err(BedParseError::InvalidStart)
    ));
    assert!(matches!(
        parse_bed_line(&b"chr1\t5\n".to_vec()),
        Err(BedParseError::MissingEnd)
    ));
    assert!(matches!(
        parse_bed_line(&b"chr1\t5\t99999999999\n".to_vec()),
        Err(BedParseError::InvalidEnd)
    ));
    // Only the first three fields count; the fourth may hold anything.
    let parsed = parse_bed_line(&b"chr1\t0\t7\t\x00weird\r\n".to_vec()).unwrap();
    assert_eq!(parsed.end, 7);
}

fn ci(name: &str, id: u32, length: u32) -> ChromInfo {
    ChromInfo {
        name: name.to_string(),
        id,
        length,
    }
}

#[test]
fn merged_chrom_lists() {
    let merged = merged_chrom_sizes(&vec![
        vec![ci("chr1", 0, 1000), ci("chr2", 1, 500)],
        vec![ci("chr2", 0, 500), ci("chr3", 1, 700)],
    ])
    .unwrap();
    let names: Vec<&str> = merged.iter().map(|c| c.name.as_str()).collect();
    assert_eq!(names, vec!["chr1", "chr2", "chr3"]);
    assert_eq!(merged[1].length, 500);
    assert_eq!(merged[2].length, 700);

    // The same chromosome with two lengths marks the inputs as nonmatching.
    let clash = merged_chrom_sizes(&vec![
        vec![ci("chr1", 0, 1000)],
        vec![ci("chr1", 0, 999)],
    ]);
    assert!(clash.is_none());
}
