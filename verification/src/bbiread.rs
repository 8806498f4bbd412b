//! Reading the BBI container: the fixed header, the zoom headers, the
//! chromosome B+-tree, and the data blocks the R-tree search points at.

use crate::bbi::{
    BBIFile, BBIFileInfo, BBIHeader, Block, ChromInfo, Endianness, Summary, ZoomHeader, ZoomRecord,
    BIGBED_MAGIC, BIGWIG_MAGIC, CHROM_TREE_MAGIC, CIR_TREE_MAGIC,
};
use crate::cirtree::{
    cir_search, cir_valid, search_overlapping_blocks, CirTreeSearchError, CIR_TREE_MAX_DEPTH,
};
use crate::codec::{read_u16, read_u32, read_u64, spec_u16_at, spec_u32_at, spec_u64_at};
use crate::compress::{zlib_decompress_block, zlib_inflate};
use vstd::multiset::Multiset;
use vstd::prelude::*;
use vstd::string::StringSliceAdditionalSpecFns;

verus! {

/// Why the opening parse of a bbi file failed.
#[derive(Debug)]
pub enum BBIFileReadInfoError {
    /// The bytes at the expected positions match no supported magic.
    UnknownMagic,
    /// The chromosome tree is malformed.
    InvalidChroms,
    /// The data ends before a structure it should hold.
    IoError(String),
}

/// Possible errors encountered when reading a bbi file.
#[derive(Debug)]
pub enum BBIReadError {
    /// The passed chromosome was not found in the file.
    InvalidChromosome(String),
    /// A nested structure's magic number is wrong.
    UnknownMagic,
    /// The file is structurally corrupt.
    InvalidFile(String),
    /// Bed-like text data was malformed.
    BedValueError(String),
    /// The data ends before a structure it should hold.
    IoError(String),
}

/// Potential errors found when trying to read data from a zoom level.
#[derive(Debug)]
pub enum ZoomIntervalError {
    /// No zoom level with the requested reduction level exists.
    ReductionLevelNotFound,
    /// The underlying read failed.
    BBIReadError(BBIReadError),
}

impl From<CirTreeSearchError> for BBIReadError {
    fn from(value: CirTreeSearchError) -> (r: BBIReadError) {
        match value {
            CirTreeSearchError::InvalidChromosome(chrom) => BBIReadError::InvalidChromosome(chrom),
            CirTreeSearchError::UnknownMagic => BBIReadError::UnknownMagic,
            CirTreeSearchError::InvalidFile(reason) => BBIReadError::InvalidFile(reason),
        }
    }
}

impl vstd::std_specs::convert::FromSpecImpl<CirTreeSearchError> for BBIReadError {
    open spec fn obeys_from_spec() -> bool {
        true
    }

    open spec fn from_spec(value: CirTreeSearchError) -> BBIReadError {
        match value {
            CirTreeSearchError::InvalidChromosome(chrom) => BBIReadError::InvalidChromosome(chrom),
            CirTreeSearchError::UnknownMagic => BBIReadError::UnknownMagic,
            CirTreeSearchError::InvalidFile(reason) => BBIReadError::InvalidFile(reason),
        }
    }
}

impl From<CirTreeSearchError> for ZoomIntervalError {
    fn from(value: CirTreeSearchError) -> (r: ZoomIntervalError) {
        ZoomIntervalError::BBIReadError(BBIReadError::from(value))
    }
}

impl vstd::std_specs::convert::FromSpecImpl<CirTreeSearchError> for ZoomIntervalError {
    open spec fn obeys_from_spec() -> bool {
        true
    }

    open spec fn from_spec(value: CirTreeSearchError) -> ZoomIntervalError {
        match value {
            CirTreeSearchError::InvalidChromosome(chrom) => ZoomIntervalError::BBIReadError(
                BBIReadError::InvalidChromosome(chrom),
            ),
            CirTreeSearchError::UnknownMagic => ZoomIntervalError::BBIReadError(
                BBIReadError::UnknownMagic,
            ),
            CirTreeSearchError::InvalidFile(reason) => ZoomIntervalError::BBIReadError(
                BBIReadError::InvalidFile(reason),
            ),
        }
    }
}

/// Byte-for-byte equality of two strings. Equal UTF-8 encodings mean equal
/// character sequences.
pub fn str_eq(a: &str, b: &str) -> (r: bool)
    ensures
        r == (a@ == b@),
{
    proof {
        vstd::utf8::encode_utf8_decode_utf8(a@);
        vstd::utf8::encode_utf8_decode_utf8(b@);
    }
    let ab = a.as_bytes();
    let bb = b.as_bytes();
    if ab.len() != bb.len() {
        return false;
    }
    let mut i: usize = 0;
    while i < ab.len()
        invariant
            i <= ab@.len(),
            ab@ == a.spec_bytes(),
            bb@ == b.spec_bytes(),
            ab@.len() == bb@.len(),
            forall|k: int| 0 <= k < i ==> ab@[k] == bb@[k],
        decreases ab@.len() - i,
    {
        if ab[i] != bb[i] {
            return false;
        }
        i = i + 1;
    }
    proof {
        assert(a.spec_bytes() =~= b.spec_bytes());
        vstd::utf8::encode_utf8_decode_utf8(a@);
        vstd::utf8::encode_utf8_decode_utf8(b@);
    }
    true
}

/// The requested chromosome is not in the file.
#[derive(Debug)]
pub struct ChromIdNotFound(pub String);

impl From<ChromIdNotFound> for BBIReadError {
    fn from(e: ChromIdNotFound) -> (r: BBIReadError) {
        BBIReadError::InvalidChromosome(e.0)
    }
}

impl vstd::std_specs::convert::FromSpecImpl<ChromIdNotFound> for BBIReadError {
    open spec fn obeys_from_spec() -> bool {
        true
    }

    open spec fn from_spec(e: ChromIdNotFound) -> BBIReadError {
        BBIReadError::InvalidChromosome(e.0)
    }
}

impl From<ChromIdNotFound> for ZoomIntervalError {
    fn from(e: ChromIdNotFound) -> (r: ZoomIntervalError) {
        ZoomIntervalError::BBIReadError(BBIReadError::InvalidChromosome(e.0))
    }
}

impl vstd::std_specs::convert::FromSpecImpl<ChromIdNotFound> for ZoomIntervalError {
    open spec fn obeys_from_spec() -> bool {
        true
    }

    open spec fn from_spec(e: ChromIdNotFound) -> ZoomIntervalError {
        ZoomIntervalError::BBIReadError(BBIReadError::InvalidChromosome(e.0))
    }
}

/// The id of the first chromosome of the list that carries the given name.
pub open spec fn spec_chrom_id(chroms: Seq<ChromInfo>, name: Seq<char>) -> Option<u32>
    decreases chroms.len(),
{
    if chroms.len() == 0 {
        None
    } else if chroms[0].name@ == name {
        Some(chroms[0].id)
    } else {
        spec_chrom_id(chroms.subrange(1, chroms.len() as int), name)
    }
}

impl BBIFileInfo {
    /// Looks the chromosome up by name; the name itself comes back as the
    /// error when the file does not know it.
    pub fn chrom_id(&self, chrom_name: &str) -> (r: Result<u32, ChromIdNotFound>)
        ensures
            match spec_chrom_id(self.chrom_info@, chrom_name@) {
                Some(id) => r matches Ok(i) && i == id,
                None => r matches Err(e) && e.0@ == chrom_name@,
            },
    {
        let mut i: usize = 0;
        proof {
            assert(self.chrom_info@.subrange(0, self.chrom_info@.len() as int)
                =~= self.chrom_info@);
        }
        while i < self.chrom_info.len()
            invariant
                i <= self.chrom_info@.len(),
                spec_chrom_id(self.chrom_info@, chrom_name@) == spec_chrom_id(
                    self.chrom_info@.subrange(i as int, self.chrom_info@.len() as int),
                    chrom_name@,
                ),
            decreases self.chrom_info@.len() - i,
        {
            let ghost pre = self.chrom_info@.subrange(i as int, self.chrom_info@.len() as int);
            if str_eq(self.chrom_info[i].name.as_str(), chrom_name) {
                return Ok(self.chrom_info[i].id);
            }
            proof {
                assert(pre[0] == self.chrom_info@[i as int]);
                assert(pre.subrange(1, pre.len() as int) =~= self.chrom_info@.subrange(
                    i + 1,
                    self.chrom_info@.len() as int,
                ));
            }
            i = i + 1;
        }
        proof {
            assert(self.chrom_info@.subrange(i as int, self.chrom_info@.len() as int)
                =~= Seq::<ChromInfo>::empty());
        }
        Err(ChromIdNotFound(chrom_name.to_owned()))
    }
}

/// Relies on `String::from_utf8`: it succeeds exactly on valid UTF-8 and
/// decodes it to the characters the UTF-8 rules give.
#[verifier::external_body]
pub(crate) fn bytes_to_string(b: Vec<u8>) -> (r: Option<String>)
    ensures
        match r {
            Some(s) => vstd::utf8::valid_utf8(b@) && s@ == vstd::utf8::decode_utf8(b@),
            None => !vstd::utf8::valid_utf8(b@),
        },
{
    match String::from_utf8(b) {
        Ok(s) => Some(s),
        Err(_) => None,
    }
}

/// The bytes with leading NULs removed.
pub open spec fn trim_lead(b: Seq<u8>) -> Seq<u8>
    decreases b.len(),
{
    if b.len() > 0 && b[0] == 0 {
        trim_lead(b.drop_first())
    } else {
        b
    }
}

/// The bytes with trailing NULs removed.
pub open spec fn trim_trail(b: Seq<u8>) -> Seq<u8>
    decreases b.len(),
{
    if b.len() > 0 && b[b.len() - 1] == 0 {
        trim_trail(b.drop_last())
    } else {
        b
    }
}

/// The bytes with NULs removed from both ends: how a fixed-width,
/// zero-padded key becomes a name.
pub open spec fn trim_nul(b: Seq<u8>) -> Seq<u8> {
    trim_trail(trim_lead(b))
}

proof fn lemma_trim_lead(b: Seq<u8>, lo: int)
    requires
        0 <= lo <= b.len(),
        forall|k: int| 0 <= k < lo ==> b[k] == 0,
        lo < b.len() ==> b[lo] != 0,
    ensures
        trim_lead(b) =~= b.subrange(lo, b.len() as int),
    decreases lo,
{
    if lo == 0 {
    } else {
        lemma_trim_lead(b.drop_first(), lo - 1);
        assert(b.drop_first().subrange(lo - 1, b.drop_first().len() as int) =~= b.subrange(
            lo,
            b.len() as int,
        ));
    }
}

proof fn lemma_trim_trail(b: Seq<u8>, hi: int)
    requires
        0 <= hi <= b.len(),
        forall|k: int| hi <= k < b.len() ==> b[k] == 0,
        hi > 0 ==> b[hi - 1] != 0,
    ensures
        trim_trail(b) =~= b.subrange(0, hi),
    decreases b.len(),
{
    if hi == b.len() {
        if b.len() > 0 {
            assert(b[b.len() - 1] != 0);
        }
        assert(b.subrange(0, hi) =~= b);
    } else {
        lemma_trim_trail(b.drop_last(), hi);
        assert(b.drop_last().subrange(0, hi) =~= b.subrange(0, hi));
    }
}

/// Extracts the chromosome name held in the fixed-width key at
/// `base..base + key_size`: the key trimmed of NULs on both ends, decoded as
/// UTF-8. `None` when the trimmed bytes are not valid UTF-8.
#[verifier::loop_isolation(false)]
fn chrom_key_name(d: &Vec<u8>, base: usize, key_size: usize) -> (r: Option<String>)
    requires
        base + key_size <= d@.len(),
    ensures
        ({
            let t = trim_nul(d@.subrange(base as int, base + key_size));
            match r {
                Some(s) => vstd::utf8::valid_utf8(t) && s@ == vstd::utf8::decode_utf8(t),
                None => !vstd::utf8::valid_utf8(t),
            }
        }),
{
    let dl = d.len();
    let ghost key = d@.subrange(base as int, base + key_size);
    let mut lo: usize = 0;
    while lo < key_size && d[base + lo] == 0
        invariant
            lo <= key_size,
            forall|k: int| 0 <= k < lo ==> key[k] == 0,
        decreases key_size - lo,
    {
        lo = lo + 1;
    }
    let mut hi: usize = key_size;
    while hi > lo && d[base + hi - 1] == 0
        invariant
            lo <= hi <= key_size,
            forall|k: int| hi <= k < key_size ==> key[k] == 0,
        decreases hi,
    {
        hi = hi - 1;
    }
    proof {
        lemma_trim_lead(key, lo as int);
        lemma_trim_trail(key.subrange(lo as int, key_size as int), hi - lo);
        assert(trim_nul(key) =~= key.subrange(lo as int, hi as int));
    }
    let mut t: Vec<u8> = Vec::new();
    let mut k = lo;
    while k < hi
        invariant
            lo <= k <= hi <= key_size,
            base + key_size <= d@.len(),
            t@ =~= key.subrange(lo as int, k as int),
        decreases hi - k,
    {
        t.push(d[base + k]);
        proof {
            assert(t@ =~= key.subrange(lo as int, k + 1));
        }
        k = k + 1;
    }
    proof {
        assert(t@ =~= trim_nul(key));
    }
    bytes_to_string(t)
}

/// One chromosome as the tree stores it: name characters, id, and length.
pub struct ChromSpecEntry {
    pub name: Seq<char>,
    pub id: u32,
    pub length: u32,
}

/// The key bytes of the `i`-th entry of the chromosome tree leaf at `off`.
pub open spec fn chrom_leaf_key(d: Seq<u8>, off: int, ks: int, i: int) -> Seq<u8> {
    d.subrange(off + 4 + (ks + 8) * i, off + 4 + (ks + 8) * i + ks)
}

/// The id of the `i`-th entry of the chromosome tree leaf at `off`.
pub open spec fn chrom_leaf_id(d: Seq<u8>, e: Endianness, off: int, ks: int, i: int) -> u32 {
    spec_u32_at(d, off + 4 + (ks + 8) * i + ks, e)
}

/// The length of the `i`-th entry of the chromosome tree leaf at `off`.
pub open spec fn chrom_leaf_length(d: Seq<u8>, e: Endianness, off: int, ks: int, i: int) -> u32 {
    spec_u32_at(d, off + 4 + (ks + 8) * i + ks + 4, e)
}

/// The child offset of the `i`-th entry of the internal chromosome tree node
/// at `off`. An internal entry holds the key, then the child offset.
pub open spec fn chrom_child(d: Seq<u8>, e: Endianness, off: int, ks: int, i: int) -> u64 {
    spec_u64_at(d, off + 4 + (ks + 8) * i + ks, e)
}

/// Whether walking the chromosome tree node at `off` runs into no structural
/// fault: the node and its entries lie within the data, a leaf's keys trim
/// to valid UTF-8, and an internal node — within the depth budget — has
/// sound children throughout.
pub open spec fn chrom_tree_valid(d: Seq<u8>, e: Endianness, off: int, ks: int, depth: nat) -> bool
    decreases depth, 0int,
{
    &&& 0 <= off
    &&& off + 4 <= d.len()
    &&& off + 4 + (ks + 8) * (crate::cirtree::node_count(d, off, e) as int) <= d.len()
    &&& (crate::cirtree::node_isleaf(d, off) == 1 ==> forall|i: int|
        0 <= i < crate::cirtree::node_count(d, off, e) as int ==> vstd::utf8::valid_utf8(
            trim_nul(#[trigger] chrom_leaf_key(d, off, ks, i)),
        ))
    &&& (crate::cirtree::node_isleaf(d, off) != 1 ==> depth > 0 && chrom_children_valid(
        d,
        e,
        off,
        ks,
        (depth - 1) as nat,
        crate::cirtree::node_count(d, off, e) as int,
    ))
}

/// Whether the first `i` children of the internal chromosome tree node at
/// `off` are sound.
pub open spec fn chrom_children_valid(
    d: Seq<u8>,
    e: Endianness,
    off: int,
    ks: int,
    depth: nat,
    i: int,
) -> bool
    decreases depth, 1int + i,
{
    if i <= 0 {
        true
    } else {
        &&& chrom_children_valid(d, e, off, ks, depth, i - 1)
        &&& chrom_tree_valid(d, e, chrom_child(d, e, off, ks, i - 1) as int, ks, depth)
    }
}

/// Every chromosome the tree below `off` holds, in traversal order.
pub open spec fn chrom_tree_chroms(d: Seq<u8>, e: Endianness, off: int, ks: int, depth: nat) -> Seq<
    ChromSpecEntry,
>
    decreases depth, 0int,
{
    if crate::cirtree::node_isleaf(d, off) == 1 {
        chrom_leaf_chroms(d, e, off, ks, crate::cirtree::node_count(d, off, e) as int)
    } else if depth > 0 {
        chrom_children_chroms(
            d,
            e,
            off,
            ks,
            (depth - 1) as nat,
            crate::cirtree::node_count(d, off, e) as int,
        )
    } else {
        Seq::empty()
    }
}

/// The first `i` chromosomes of the leaf at `off`.
pub open spec fn chrom_leaf_chroms(d: Seq<u8>, e: Endianness, off: int, ks: int, i: int) -> Seq<
    ChromSpecEntry,
>
    decreases i,
{
    if i <= 0 {
        Seq::empty()
    } else {
        chrom_leaf_chroms(d, e, off, ks, i - 1).push(
            ChromSpecEntry {
                name: vstd::utf8::decode_utf8(trim_nul(chrom_leaf_key(d, off, ks, i - 1))),
                id: chrom_leaf_id(d, e, off, ks, i - 1),
                length: chrom_leaf_length(d, e, off, ks, i - 1),
            },
        )
    }
}

/// The chromosomes below the first `i` children of the internal node at
/// `off`.
pub open spec fn chrom_children_chroms(
    d: Seq<u8>,
    e: Endianness,
    off: int,
    ks: int,
    depth: nat,
    i: int,
) -> Seq<ChromSpecEntry>
    decreases depth, 1int + i,
{
    if i <= 0 {
        Seq::empty()
    } else {
        chrom_children_chroms(d, e, off, ks, depth, i - 1) + chrom_tree_chroms(
            d,
            e,
            chrom_child(d, e, off, ks, i - 1) as int,
            ks,
            depth,
        )
    }
}

/// Whether the parsed chromosome list renders the stored one.
pub open spec fn chroms_match(infos: Seq<ChromInfo>, entries: Seq<ChromSpecEntry>) -> bool {
    &&& infos.len() == entries.len()
    &&& forall|i: int|
        0 <= i < infos.len() ==> (#[trigger] infos[i]).name@ == entries[i].name && infos[i].id
            == entries[i].id && infos[i].length == entries[i].length
}

/// How deep a well-formed chromosome tree can nest; deeper files are taken
/// as corrupt, which also rules out cycles among node offsets.
pub const CHROM_TREE_MAX_DEPTH: u32 = 64;

/// Why walking a chromosome tree block failed.
#[derive(Debug)]
pub enum ChromTreeBlockReadError {
    /// A node is malformed: out of bounds, nested too deep, or a key is not
    /// UTF-8.
    InvalidFile(String),
}

/// Walks the chromosome tree node at `node_off` and appends every
/// chromosome it holds, in traversal order, to `chroms`.
#[verifier::loop_isolation(false)]
#[verifier::rlimit(100)]
#[verifier::spinoff_prover]
pub fn read_chrom_tree_block(
    d: &Vec<u8>,
    e: Endianness,
    node_off: u64,
    key_size: u32,
    depth: u32,
    chroms: &mut Vec<ChromInfo>,
) -> (r: Result<(), ChromTreeBlockReadError>)
    ensures
        r is Ok ==> chrom_tree_valid(d@, e, node_off as int, key_size as int, depth as nat) && ({
            let entries = chrom_tree_chroms(d@, e, node_off as int, key_size as int, depth as nat);
            &&& final(chroms)@.len() == old(chroms)@.len() + entries.len()
            &&& final(chroms)@.subrange(0, old(chroms)@.len() as int) == old(chroms)@
            &&& chroms_match(
                final(chroms)@.subrange(old(chroms)@.len() as int, final(chroms)@.len() as int),
                entries,
            )
        }),
        r is Err ==> !chrom_tree_valid(d@, e, node_off as int, key_size as int, depth as nat),
    decreases depth,
{
    let dl = d.len();
    if node_off > dl as u64 || (dl as u64) - node_off < 4 {
        return Err(ChromTreeBlockReadError::InvalidFile("chrom tree node out of bounds".to_owned()));
    }
    let off = node_off as usize;
    let isleaf = d[off];
    let count = read_u16(d, off + 2, e);
    let entry_size: u64 = key_size as u64 + 8;
    proof {
        assert((entry_size as int) * (count as int) <= 0x1_0000_0007 * 0xFFFF) by (nonlinear_arith)
            requires
                0 <= count <= 0xFFFF,
                0 <= entry_size <= 0x1_0000_0007,
        ;
        vstd::arithmetic::mul::lemma_mul_is_commutative(entry_size as int, count as int);
    }
    if entry_size * (count as u64) > (dl as u64) - (node_off + 4) {
        return Err(ChromTreeBlockReadError::InvalidFile("chrom tree node out of bounds".to_owned()));
    }
    let ghost ks = key_size as int;
    if isleaf == 1 {
        let mut i: usize = 0;
        while i < count as usize
            invariant
                i <= count as usize,
                forall|k: int|
                    0 <= k < i ==> vstd::utf8::valid_utf8(
                        trim_nul(#[trigger] chrom_leaf_key(d@, node_off as int, ks, k)),
                    ),
                chroms@.len() == old(chroms)@.len() + i,
                chroms@.subrange(0, old(chroms)@.len() as int) == old(chroms)@,
                chroms_match(
                    chroms@.subrange(old(chroms)@.len() as int, chroms@.len() as int),
                    chrom_leaf_chroms(d@, e, node_off as int, ks, i as int),
                ),
            decreases count as int - i,
        {
            proof {
                let ksi = key_size as int + 8;
                vstd::arithmetic::mul::lemma_mul_inequality(i + 1, count as int, ksi);
                vstd::arithmetic::mul::lemma_mul_is_commutative(i + 1, ksi);
                vstd::arithmetic::mul::lemma_mul_is_commutative(count as int, ksi);
                assert(ksi * (i + 1) == ksi * (i as int) + ksi) by (nonlinear_arith);
                vstd::arithmetic::mul::lemma_mul_nonnegative(ksi, i as int);
            }
            let base = off + 4 + (key_size as usize + 8) * i;
            let name = match chrom_key_name(d, base, key_size as usize) {
                Some(s) => s,
                None => {
                    proof {
                        assert(d@.subrange(base as int, base + ks) =~= chrom_leaf_key(
                            d@,
                            node_off as int,
                            ks,
                            i as int,
                        ));
                    }
                    return Err(
                        ChromTreeBlockReadError::InvalidFile("invalid utf-8 string".to_owned()),
                    );
                },
            };
            let chrom_id = read_u32(d, base + key_size as usize, e);
            let chrom_size = read_u32(d, base + key_size as usize + 4, e);
            let ghost pre = chroms@;
            chroms.push(ChromInfo { name, id: chrom_id, length: chrom_size });
            proof {
                assert(d@.subrange(base as int, base + ks) =~= chrom_leaf_key(
                    d@,
                    node_off as int,
                    ks,
                    i as int,
                ));
                assert(chroms@.subrange(0, old(chroms)@.len() as int) =~= old(chroms)@);
                assert(chroms@.subrange(old(chroms)@.len() as int, chroms@.len() as int)
                    =~= pre.subrange(old(chroms)@.len() as int, pre.len() as int).push(
                    chroms@[chroms@.len() - 1],
                ));
            }
            i = i + 1;
        }
        Ok(())
    } else {
        if depth == 0 {
            return Err(ChromTreeBlockReadError::InvalidFile("chrom tree nests too deep".to_owned()));
        }
        let mut i: usize = 0;
        while i < count as usize
            invariant
                i <= count as usize,
                chrom_children_valid(d@, e, node_off as int, ks, (depth - 1) as nat, i as int),
                chroms@.len() == old(chroms)@.len() + chrom_children_chroms(
                    d@,
                    e,
                    node_off as int,
                    ks,
                    (depth - 1) as nat,
                    i as int,
                ).len(),
                chroms@.subrange(0, old(chroms)@.len() as int) == old(chroms)@,
                chroms_match(
                    chroms@.subrange(old(chroms)@.len() as int, chroms@.len() as int),
                    chrom_children_chroms(
                        d@,
                        e,
                        node_off as int,
                        ks,
                        (depth - 1) as nat,
                        i as int,
                    ),
                ),
            decreases count as int - i,
        {
            proof {
                let ksi = key_size as int + 8;
                vstd::arithmetic::mul::lemma_mul_inequality(i + 1, count as int, ksi);
                vstd::arithmetic::mul::lemma_mul_is_commutative(i + 1, ksi);
                vstd::arithmetic::mul::lemma_mul_is_commutative(count as int, ksi);
                assert(ksi * (i + 1) == ksi * (i as int) + ksi) by (nonlinear_arith);
                vstd::arithmetic::mul::lemma_mul_nonnegative(ksi, i as int);
            }
            let base = off + 4 + (key_size as usize + 8) * i;
            let child_offset = read_u64(d, base + key_size as usize, e);
            let ghost pre = chroms@;
            match read_chrom_tree_block(d, e, child_offset, key_size, depth - 1, chroms) {
                Ok(()) => {},
                Err(err) => {
                    proof {
                        assert(!chrom_tree_valid(
                            d@,
                            e,
                            node_off as int,
                            ks,
                            depth as nat,
                        )) by {
                            if chrom_tree_valid(d@, e, node_off as int, ks, depth as nat) {
                                lemma_chrom_children_valid_index(
                                    d@,
                                    e,
                                    node_off as int,
                                    ks,
                                    (depth - 1) as nat,
                                    i as int,
                                    crate::cirtree::node_count(d@, node_off as int, e) as int,
                                );
                            }
                        }
                    }
                    return Err(err);
                },
            }
            proof {
                assert(chroms@.subrange(0, old(chroms)@.len() as int) =~= old(chroms)@);
                lemma_chroms_match_concat(
                    chroms@.subrange(old(chroms)@.len() as int, chroms@.len() as int),
                    pre.subrange(old(chroms)@.len() as int, pre.len() as int),
                    chroms@.subrange(pre.len() as int, chroms@.len() as int),
                    chrom_children_chroms(
                        d@,
                        e,
                        node_off as int,
                        ks,
                        (depth - 1) as nat,
                        i as int,
                    ),
                    chrom_tree_chroms(
                        d@,
                        e,
                        chrom_child(d@, e, node_off as int, ks, i as int) as int,
                        ks,
                        (depth - 1) as nat,
                    ),
                );
            }
            i = i + 1;
        }
        Ok(())
    }
}

/// Whether `a` comes at or before `b` in byte-wise lexicographic order — the
/// order `String` comparison gives, and the order chromosome names are
/// listed in.
pub open spec fn lex_le(a: Seq<u8>, b: Seq<u8>) -> bool
    decreases a.len(),
{
    if a.len() == 0 {
        true
    } else if b.len() == 0 {
        false
    } else if a[0] < b[0] {
        true
    } else if a[0] > b[0] {
        false
    } else {
        lex_le(a.drop_first(), b.drop_first())
    }
}

/// Two byte strings with a common prefix compare as their tails do.
proof fn lemma_lex_le_common_prefix(a: Seq<u8>, b: Seq<u8>, i: int)
    requires
        0 <= i <= a.len(),
        i <= b.len(),
        forall|k: int| 0 <= k < i ==> a[k] == b[k],
    ensures
        lex_le(a, b) == lex_le(a.subrange(i, a.len() as int), b.subrange(i, b.len() as int)),
    decreases i,
{
    if i > 0 {
        lemma_lex_le_common_prefix(a.drop_first(), b.drop_first(), i - 1);
        assert(a.drop_first().subrange(i - 1, a.drop_first().len() as int) =~= a.subrange(
            i,
            a.len() as int,
        ));
        assert(b.drop_first().subrange(i - 1, b.drop_first().len() as int) =~= b.subrange(
            i,
            b.len() as int,
        ));
    } else {
        assert(a.subrange(0, a.len() as int) =~= a);
        assert(b.subrange(0, b.len() as int) =~= b);
    }
}

/// The lexicographic order is total: one of the two directions always holds.
pub proof fn lemma_lex_le_total(a: Seq<u8>, b: Seq<u8>)
    ensures
        lex_le(a, b) || lex_le(b, a),
    decreases a.len(),
{
    if a.len() > 0 && b.len() > 0 && a[0] == b[0] {
        lemma_lex_le_total(a.drop_first(), b.drop_first());
    }
}

/// Whether `a` comes at or before `b` byte-wise, as `str::cmp` orders them.
pub fn str_le(a: &str, b: &str) -> (r: bool)
    ensures
        r == lex_le(a.spec_bytes(), b.spec_bytes()),
{
    let ab = a.as_bytes();
    let bb = b.as_bytes();
    let mut i: usize = 0;
    while i < ab.len() && i < bb.len() && ab[i] == bb[i]
        invariant
            i <= ab@.len(),
            i <= bb@.len(),
            ab@ == a.spec_bytes(),
            bb@ == b.spec_bytes(),
            forall|k: int| 0 <= k < i ==> ab@[k] == bb@[k],
        decreases ab@.len() - i,
    {
        i = i + 1;
    }
    proof {
        lemma_lex_le_common_prefix(ab@, bb@, i as int);
    }
    if i == ab.len() {
        true
    } else if i == bb.len() {
        false
    } else {
        ab[i] <= bb[i]
    }
}

/// The UTF-8 bytes of a chromosome's name.
pub open spec fn name_bytes(c: ChromInfo) -> Seq<u8> {
    vstd::utf8::encode_utf8(c.name@)
}

/// Whether the chromosome names are in byte-wise lexicographic order.
pub open spec fn chroms_sorted(infos: Seq<ChromInfo>) -> bool {
    forall|i: int|
        0 <= i < infos.len() - 1 ==> lex_le(
            name_bytes(#[trigger] infos[i]),
            name_bytes(infos[i + 1]),
        )
}

/// Sorts the chromosomes by name, keeping exactly the given entries.
#[verifier::loop_isolation(false)]
#[verifier::rlimit(100)]
#[verifier::spinoff_prover]
fn sort_chroms_by_name(v: Vec<ChromInfo>) -> (r: Vec<ChromInfo>)
    ensures
        r@.to_multiset() == v@.to_multiset(),
        chroms_sorted(r@),
{
    broadcast use vstd::seq_lib::group_to_multiset_ensures;

    let ghost orig = v@;
    let mut rem = v;
    let mut out: Vec<ChromInfo> = Vec::new();
    while rem.len() > 0
        invariant
            out@.to_multiset().add(rem@.to_multiset()) =~= orig.to_multiset(),
            chroms_sorted(out@),
            forall|t: int|
                0 <= t < rem@.len() && out@.len() > 0 ==> lex_le(
                    name_bytes(out@[out@.len() - 1]),
                    name_bytes(#[trigger] rem@[t]),
                ),
        decreases rem@.len(),
    {
        let mut mi: usize = 0;
        let mut k: usize = 1;
        proof {
            lemma_lex_le_total(name_bytes(rem@[0]), name_bytes(rem@[0]));
        }
        while k < rem.len()
            invariant
                mi < k <= rem@.len(),
                forall|t: int|
                    0 <= t < k ==> lex_le(
                        name_bytes(rem@[mi as int]),
                        name_bytes(#[trigger] rem@[t]),
                    ),
            decreases rem@.len() - k,
        {
            if str_le(rem[k].name.as_str(), rem[mi].name.as_str()) {
                let ghost old_mi = mi as int;
                mi = k;
                proof {
                    assert forall|t: int| 0 <= t < k + 1 implies lex_le(
                        name_bytes(rem@[mi as int]),
                        name_bytes(#[trigger] rem@[t]),
                    ) by {
                        if t < k {
                            lemma_lex_le_trans(
                                name_bytes(rem@[k as int]),
                                name_bytes(rem@[old_mi]),
                                name_bytes(rem@[t]),
                            );
                        } else {
                            lemma_lex_le_total(
                                name_bytes(rem@[k as int]),
                                name_bytes(rem@[k as int]),
                            );
                        }
                    }
                }
            } else {
                proof {
                    lemma_lex_le_total(
                        name_bytes(rem@[k as int]),
                        name_bytes(rem@[mi as int]),
                    );
                }
            }
            k = k + 1;
        }
        let ghost pre_rem = rem@;
        let ghost pre_out = out@;
        let m = rem.remove(mi);
        out.push(m);
        proof {
            assert(out@.to_multiset().add(rem@.to_multiset()) =~= orig.to_multiset()) by {
                assert(rem@ == pre_rem.remove(mi as int));
                assert(pre_rem.to_multiset().contains(m));
            }
            assert forall|t: int| 0 <= t < rem@.len() && out@.len() > 0 implies lex_le(
                name_bytes(out@[out@.len() - 1]),
                name_bytes(#[trigger] rem@[t]),
            ) by {
                if t < mi {
                    assert(rem@[t] == pre_rem[t]);
                } else {
                    assert(rem@[t] == pre_rem[t + 1]);
                }
            }
            assert(chroms_sorted(out@)) by {
                if pre_out.len() > 0 {
                    assert(lex_le(name_bytes(pre_out[pre_out.len() - 1]), name_bytes(m)));
                }
                assert forall|i: int| 0 <= i < out@.len() - 1 implies lex_le(
                    name_bytes(#[trigger] out@[i]),
                    name_bytes(out@[i + 1]),
                ) by {
                    if i < pre_out.len() - 1 {
                        assert(out@[i] == pre_out[i]);
                        assert(out@[i + 1] == pre_out[i + 1]);
                    } else {
                        assert(out@[i] == pre_out[pre_out.len() - 1]);
                        assert(out@[i + 1] == m);
                    }
                }
            }
        }
    }
    proof {
        assert(rem@.to_multiset() =~= Multiset::<ChromInfo>::empty());
        assert(out@.to_multiset() =~= orig.to_multiset());
    }
    out
}

/// The lexicographic order is transitive.
pub proof fn lemma_lex_le_trans(a: Seq<u8>, b: Seq<u8>, c: Seq<u8>)
    requires
        lex_le(a, b),
        lex_le(b, c),
    ensures
        lex_le(a, c),
    decreases a.len(),
{
    if a.len() > 0 && b.len() > 0 && c.len() > 0 && a[0] == b[0] && b[0] == c[0] {
        lemma_lex_le_trans(a.drop_first(), b.drop_first(), c.drop_first());
    }
}

/// What the magic number at the head of the file says: the variant, and the
/// byte order whose encoding of the magic the first four bytes are.
pub open spec fn spec_file_kind(d: Seq<u8>) -> Option<(BBIFile, Endianness)> {
    if spec_u32_at(d, 0, Endianness::Big) == BIGWIG_MAGIC {
        Some((BBIFile::BigWig, Endianness::Big))
    } else if spec_u32_at(d, 0, Endianness::Little) == BIGWIG_MAGIC {
        Some((BBIFile::BigWig, Endianness::Little))
    } else if spec_u32_at(d, 0, Endianness::Big) == BIGBED_MAGIC {
        Some((BBIFile::BigBed, Endianness::Big))
    } else if spec_u32_at(d, 0, Endianness::Little) == BIGBED_MAGIC {
        Some((BBIFile::BigBed, Endianness::Little))
    } else {
        None
    }
}

/// The fixed 64-byte header, read in byte order `e`.
pub open spec fn spec_bbi_header(d: Seq<u8>, e: Endianness) -> BBIHeader {
    BBIHeader {
        endianness: e,
        version: spec_u16_at(d, 4, e),
        zoom_levels: spec_u16_at(d, 6, e),
        chromosome_tree_offset: spec_u64_at(d, 8, e),
        full_data_offset: spec_u64_at(d, 16, e),
        full_index_offset: spec_u64_at(d, 24, e),
        field_count: spec_u16_at(d, 32, e),
        defined_field_count: spec_u16_at(d, 34, e),
        auto_sql_offset: spec_u64_at(d, 36, e),
        total_summary_offset: spec_u64_at(d, 44, e),
        uncompress_buf_size: spec_u32_at(d, 52, e),
    }
}

/// The `i`-th 24-byte zoom header, which directly follows the fixed header.
pub open spec fn spec_zoom_header(d: Seq<u8>, e: Endianness, i: int) -> ZoomHeader {
    ZoomHeader {
        reduction_level: spec_u32_at(d, 64 + 24 * i, e),
        data_offset: spec_u64_at(d, 64 + 24 * i + 8, e),
        index_offset: spec_u64_at(d, 64 + 24 * i + 16, e),
    }
}

/// Reads the zoom headers that follow the fixed header.
#[verifier::loop_isolation(false)]
fn read_zoom_headers(d: &Vec<u8>, header: &BBIHeader) -> (r: Result<
    Vec<ZoomHeader>,
    BBIFileReadInfoError,
>)
    ensures
        r matches Ok(v) ==> 64 + 24 * (header.zoom_levels as int) <= d@.len() && v@.len()
            == header.zoom_levels as int && (forall|i: int|
            0 <= i < v@.len() ==> #[trigger] v@[i] == spec_zoom_header(d@, header.endianness, i)),
        r is Err ==> 64 + 24 * (header.zoom_levels as int) > d@.len(),
        r matches Err(e2) ==> e2 is IoError,
{
    let dl = d.len();
    let levels = header.zoom_levels as usize;
    if dl < 64 || (dl - 64) / 24 < levels {
        return Err(BBIFileReadInfoError::IoError("data ends within the zoom headers".to_owned()));
    }
    let mut out: Vec<ZoomHeader> = Vec::new();
    let mut i: usize = 0;
    while i < levels
        invariant
            i <= levels,
            out@.len() == i,
            forall|k: int|
                0 <= k < i ==> #[trigger] out@[k] == spec_zoom_header(d@, header.endianness, k),
        decreases levels - i,
    {
        let base = 64 + 24 * i;
        let reduction_level = read_u32(d, base, header.endianness);
        let data_offset = read_u64(d, base + 8, header.endianness);
        let index_offset = read_u64(d, base + 16, header.endianness);
        out.push(ZoomHeader { reduction_level, data_offset, index_offset });
        i = i + 1;
    }
    Ok(out)
}

/// Whether the chromosome renders one of the stored entries: same name, id
/// and length.
pub open spec fn rendered_by(c: ChromInfo, entries: Seq<ChromSpecEntry>) -> bool {
    exists|j: int|
        0 <= j < entries.len() && c.name@ == (#[trigger] entries[j]).name && c.id == entries[j].id
            && c.length == entries[j].length
}

/// Whether the stored entry is listed among the chromosomes: same name, id
/// and length.
pub open spec fn entry_listed(en: ChromSpecEntry, infos: Seq<ChromInfo>) -> bool {
    exists|i: int|
        0 <= i < infos.len() && (#[trigger] infos[i]).name@ == en.name && infos[i].id == en.id
            && infos[i].length == en.length
}

/// Whether the chromosome list holds exactly the stored entries, in some
/// order: the lists have the same length, and each side's items appear on
/// the other, field for field.
pub open spec fn chroms_permute(infos: Seq<ChromInfo>, entries: Seq<ChromSpecEntry>) -> bool {
    &&& infos.len() == entries.len()
    &&& forall|i: int|
        0 <= i < infos.len() ==> rendered_by(#[trigger] infos[i], entries)
    &&& forall|j: int| 0 <= j < entries.len() ==> entry_listed(#[trigger] entries[j], infos)
}

/// Reordering a chromosome list keeps it a rendering of the stored entries.
proof fn lemma_sorted_chroms_permute(
    sorted: Seq<ChromInfo>,
    parsed: Seq<ChromInfo>,
    entries: Seq<ChromSpecEntry>,
)
    requires
        sorted.to_multiset() == parsed.to_multiset(),
        chroms_match(parsed, entries),
    ensures
        chroms_permute(sorted, entries),
{
    broadcast use vstd::seq_lib::group_to_multiset_ensures;

    sorted.to_multiset_ensures();
    parsed.to_multiset_ensures();
    assert(sorted.to_multiset().len() == parsed.to_multiset().len());
    assert forall|i: int| 0 <= i < sorted.len() implies rendered_by(
        #[trigger] sorted[i],
        entries,
    ) by {
        assert(sorted.contains(sorted[i]));
        assert(sorted.to_multiset().count(sorted[i]) > 0);
        assert(parsed.to_multiset().count(sorted[i]) > 0);
        assert(parsed.contains(sorted[i]));
        let j = choose|j: int| 0 <= j < parsed.len() && parsed[j] == sorted[i];
        assert(parsed[j].name@ == entries[j].name && parsed[j].id == entries[j].id
            && parsed[j].length == entries[j].length);
    }
    assert forall|j: int| 0 <= j < entries.len() implies entry_listed(
        #[trigger] entries[j],
        sorted,
    ) by {
        assert(parsed[j].name@ == entries[j].name && parsed[j].id == entries[j].id
            && parsed[j].length == entries[j].length);
        assert(parsed.contains(parsed[j]));
        assert(parsed.to_multiset().count(parsed[j]) > 0);
        assert(sorted.to_multiset().count(parsed[j]) > 0);
        assert(sorted.contains(parsed[j]));
        let i = choose|i: int| 0 <= i < sorted.len() && sorted[i] == parsed[j];
        assert(sorted[i].name@ == entries[j].name);
    }
    assert(sorted.len() == parsed.len());
    assert(sorted.len() == entries.len());
}

/// Whether the stored entries carry pairwise distinct names.
pub open spec fn entry_names_unique(entries: Seq<ChromSpecEntry>) -> bool {
    forall|i: int, j: int|
        0 <= i < j < entries.len() ==> (#[trigger] entries[i]).name != (#[trigger] entries[j]).name
}

/// Whether the stored entries carry pairwise distinct ids.
pub open spec fn entry_ids_unique(entries: Seq<ChromSpecEntry>) -> bool {
    forall|i: int, j: int|
        0 <= i < j < entries.len() ==> (#[trigger] entries[i]).id != (#[trigger] entries[j]).id
}

/// Whether the chromosomes carry pairwise distinct names.
pub open spec fn chrom_names_unique(infos: Seq<ChromInfo>) -> bool {
    forall|i: int, j: int|
        0 <= i < j < infos.len() ==> (#[trigger] infos[i]).name@ != (#[trigger] infos[j]).name@
}

/// Whether the chromosomes carry pairwise distinct ids.
pub open spec fn chrom_ids_unique(infos: Seq<ChromInfo>) -> bool {
    forall|i: int, j: int|
        0 <= i < j < infos.len() ==> (#[trigger] infos[i]).id != (#[trigger] infos[j]).id
}

/// Two distinct positions of the reordered list stand for two distinct
/// positions of the parsed list, value for value.
proof fn lemma_two_indices(sorted: Seq<ChromInfo>, parsed: Seq<ChromInfo>, i: int, j: int) -> (r: (
    int,
    int,
))
    requires
        sorted.to_multiset() == parsed.to_multiset(),
        0 <= i < j < sorted.len(),
    ensures
        0 <= r.0 < parsed.len(),
        0 <= r.1 < parsed.len(),
        r.0 != r.1,
        parsed[r.0] == sorted[i],
        parsed[r.1] == sorted[j],
{
    broadcast use vstd::seq_lib::group_to_multiset_ensures;

    sorted.to_multiset_ensures();
    parsed.to_multiset_ensures();
    assert(sorted.contains(sorted[i]));
    assert(sorted.to_multiset().count(sorted[i]) > 0);
    assert(parsed.to_multiset().count(sorted[i]) > 0);
    assert(parsed.contains(sorted[i]));
    let p1 = choose|p1: int| 0 <= p1 < parsed.len() && parsed[p1] == sorted[i];
    if sorted[i] != sorted[j] {
        assert(sorted.contains(sorted[j]));
        assert(sorted.to_multiset().count(sorted[j]) > 0);
        assert(parsed.to_multiset().count(sorted[j]) > 0);
        assert(parsed.contains(sorted[j]));
        let p2 = choose|p2: int| 0 <= p2 < parsed.len() && parsed[p2] == sorted[j];
        (p1, p2)
    } else {
        let x = sorted[i];
        assert(sorted.remove(i).to_multiset() =~= sorted.to_multiset().remove(x));
        assert(sorted.remove(i)[j - 1] == sorted[j]);
        assert(sorted.remove(i).contains(x));
        sorted.remove(i).to_multiset_ensures();
        assert(sorted.to_multiset().remove(x).count(x) > 0);
        assert(sorted.to_multiset().count(x) >= 2);
        assert(parsed.to_multiset().count(x) >= 2);
        assert(parsed.remove(p1).to_multiset() =~= parsed.to_multiset().remove(x));
        parsed.remove(p1).to_multiset_ensures();
        assert(parsed.remove(p1).to_multiset().count(x) > 0);
        assert(parsed.remove(p1).contains(x));
        let q = choose|q: int| 0 <= q < parsed.remove(p1).len() && parsed.remove(p1)[q] == x;
        let p2 = if q < p1 {
            q
        } else {
            q + 1
        };
        assert(parsed[p2] == x);
        (p1, p2)
    }
}

/// A reordering of a faithfully parsed list keeps names and ids unique
/// whenever the stored entries' are, and keeps ids below the count.
proof fn lemma_permute_unique(
    sorted: Seq<ChromInfo>,
    parsed: Seq<ChromInfo>,
    entries: Seq<ChromSpecEntry>,
)
    requires
        sorted.to_multiset() == parsed.to_multiset(),
        chroms_match(parsed, entries),
    ensures
        entry_names_unique(entries) ==> chrom_names_unique(sorted),
        entry_ids_unique(entries) ==> chrom_ids_unique(sorted),
{
    broadcast use vstd::seq_lib::group_to_multiset_ensures;

    sorted.to_multiset_ensures();
    parsed.to_multiset_ensures();
    if entry_names_unique(entries) {
        assert forall|i: int, j: int| 0 <= i < j < sorted.len() implies (
        #[trigger] sorted[i]).name@ != (#[trigger] sorted[j]).name@ by {
            if sorted[i].name@ == sorted[j].name@ {
                let (p1, p2) = lemma_two_indices(sorted, parsed, i, j);
                assert(entries[p1].name == parsed[p1].name@);
                assert(entries[p2].name == parsed[p2].name@);
                if p1 < p2 {
                    assert(entries[p1].name != entries[p2].name);
                } else {
                    assert(entries[p2].name != entries[p1].name);
                }
            }
        }
    }
    if entry_ids_unique(entries) {
        assert forall|i: int, j: int| 0 <= i < j < sorted.len() implies (#[trigger] sorted[i]).id
            != (#[trigger] sorted[j]).id by {
            if sorted[i].id == sorted[j].id {
                let (p1, p2) = lemma_two_indices(sorted, parsed, i, j);
                assert(entries[p1].id == parsed[p1].id);
                assert(entries[p2].id == parsed[p2].id);
                if p1 < p2 {
                    assert(entries[p1].id != entries[p2].id);
                } else {
                    assert(entries[p2].id != entries[p1].id);
                }
            }
        }
    }
}

/// What holds of a file info successfully parsed from `d`: the magic fixed
/// the variant and byte order, every header field is the one stored at its
/// offset, and the chromosome list holds exactly the tree's chromosomes,
/// sorted by name.
pub open spec fn spec_info_ok(d: Seq<u8>, info: BBIFileInfo) -> bool {
    &&& d.len() >= 64
    &&& spec_file_kind(d) matches Some((ft, e)) && ({
        let header = spec_bbi_header(d, e);
        let cto = header.chromosome_tree_offset as int;
        let ks = spec_u32_at(d, cto + 8, e) as int;
        &&& info.filetype == ft
        &&& info.header == header
        &&& info.zoom_headers@.len() == header.zoom_levels as int
        &&& (forall|i: int|
            0 <= i < info.zoom_headers@.len() ==> #[trigger] info.zoom_headers@[i]
                == spec_zoom_header(d, e, i))
        &&& cto + 32 <= d.len()
        &&& spec_u32_at(d, cto, e) == CHROM_TREE_MAGIC
        &&& spec_u32_at(d, cto + 12, e) == 8
        &&& chrom_tree_valid(d, e, cto + 32, ks, CHROM_TREE_MAX_DEPTH as nat)
        &&& chroms_sorted(info.chrom_info@)
        &&& chroms_permute(
            info.chrom_info@,
            chrom_tree_chroms(d, e, cto + 32, ks, CHROM_TREE_MAX_DEPTH as nat),
        )
        &&& (entry_names_unique(chrom_tree_chroms(d, e, cto + 32, ks, CHROM_TREE_MAX_DEPTH as nat))
            ==> chrom_names_unique(info.chrom_info@))
        &&& (entry_ids_unique(chrom_tree_chroms(d, e, cto + 32, ks, CHROM_TREE_MAX_DEPTH as nat))
            ==> chrom_ids_unique(info.chrom_info@))
        &&& ((forall|k: int|
            0 <= k < chrom_tree_chroms(d, e, cto + 32, ks, CHROM_TREE_MAX_DEPTH as nat).len()
                ==> (#[trigger] chrom_tree_chroms(
                d,
                e,
                cto + 32,
                ks,
                CHROM_TREE_MAX_DEPTH as nat,
            )[k]).id < chrom_tree_chroms(d, e, cto + 32, ks, CHROM_TREE_MAX_DEPTH as nat).len())
            ==> (forall|i: int|
            0 <= i < info.chrom_info@.len() ==> (#[trigger] info.chrom_info@[i]).id
                < info.chrom_info@.len()))
    })
}

/// Whether the fixed header parses: enough bytes for it, and a known magic.
pub open spec fn spec_header_parseable(d: Seq<u8>) -> bool {
    d.len() >= 64 && spec_file_kind(d) is Some
}

/// Whether the zoom headers and the chromosome tree header lie within the
/// data. Meaningful under a parseable header.
pub open spec fn spec_tables_in_bounds(d: Seq<u8>) -> bool {
    let e = spec_file_kind(d).unwrap().1;
    let header = spec_bbi_header(d, e);
    &&& 64 + 24 * (header.zoom_levels as int) <= d.len()
    &&& header.chromosome_tree_offset + 32 <= d.len()
}

/// Whether the chromosome section is sound: the tree magic and value size
/// are right and the tree itself walks without fault. Meaningful under
/// in-bounds tables.
pub open spec fn spec_chroms_ok(d: Seq<u8>) -> bool {
    let e = spec_file_kind(d).unwrap().1;
    let cto = spec_bbi_header(d, e).chromosome_tree_offset as int;
    &&& spec_u32_at(d, cto, e) == CHROM_TREE_MAGIC
    &&& spec_u32_at(d, cto + 12, e) == 8
    &&& chrom_tree_valid(
        d,
        e,
        cto + 32,
        spec_u32_at(d, cto + 8, e) as int,
        CHROM_TREE_MAX_DEPTH as nat,
    )
}

/// Whether the whole opening parse goes through.
pub open spec fn spec_info_parseable(d: Seq<u8>) -> bool {
    spec_header_parseable(d) && spec_tables_in_bounds(d) && spec_chroms_ok(d)
}

/// Parses everything `open` needs from the raw bytes of a bbi file: the
/// fixed header (whose magic fixes the variant and the byte order), the zoom
/// headers, and the chromosome tree. Succeeds exactly on a parseable file,
/// and each error kind comes exactly from its own cause.
#[verifier::loop_isolation(false)]
#[verifier::rlimit(100)]
#[verifier::spinoff_prover]
pub fn read_info(d: &Vec<u8>) -> (r: Result<BBIFileInfo, BBIFileReadInfoError>)
    ensures
        r is Ok <==> spec_info_parseable(d@),
        r matches Ok(info) ==> spec_info_ok(d@, info),
        r matches Err(e) ==> (e is UnknownMagic <==> d@.len() >= 64 && spec_file_kind(d@) is None),
        r matches Err(e) ==> (e is IoError <==> d@.len() < 64 || (spec_header_parseable(d@)
            && !spec_tables_in_bounds(d@))),
        r matches Err(e) ==> (e is InvalidChroms <==> spec_header_parseable(d@)
            && spec_tables_in_bounds(d@) && !spec_chroms_ok(d@)),
{
    let dl = d.len();
    if dl < 64 {
        return Err(BBIFileReadInfoError::IoError("data ends within the header".to_owned()));
    }
    let magic_be = read_u32(d, 0, Endianness::Big);
    let magic_le = read_u32(d, 0, Endianness::Little);
    let filetype: BBIFile;
    let endianness: Endianness;
    if magic_be == BIGWIG_MAGIC {
        filetype = BBIFile::BigWig;
        endianness = Endianness::Big;
    } else if magic_le == BIGWIG_MAGIC {
        filetype = BBIFile::BigWig;
        endianness = Endianness::Little;
    } else if magic_be == BIGBED_MAGIC {
        filetype = BBIFile::BigBed;
        endianness = Endianness::Big;
    } else if magic_le == BIGBED_MAGIC {
        filetype = BBIFile::BigBed;
        endianness = Endianness::Little;
    } else {
        return Err(BBIFileReadInfoError::UnknownMagic);
    }
    let header = BBIHeader {
        endianness,
        version: read_u16(d, 4, endianness),
        zoom_levels: read_u16(d, 6, endianness),
        chromosome_tree_offset: read_u64(d, 8, endianness),
        full_data_offset: read_u64(d, 16, endianness),
        full_index_offset: read_u64(d, 24, endianness),
        field_count: read_u16(d, 32, endianness),
        defined_field_count: read_u16(d, 34, endianness),
        auto_sql_offset: read_u64(d, 36, endianness),
        total_summary_offset: read_u64(d, 44, endianness),
        uncompress_buf_size: read_u32(d, 52, endianness),
    };
    let zoom_headers = match read_zoom_headers(d, &header) {
        Ok(z) => z,
        Err(e) => {
            return Err(e);
        },
    };
    let cto = header.chromosome_tree_offset;
    if cto > dl as u64 || (dl as u64) - cto < 32 {
        return Err(
            BBIFileReadInfoError::IoError("data ends within the chromosome tree".to_owned()),
        );
    }
    let cto_u = cto as usize;
    let tree_magic = read_u32(d, cto_u, endianness);
    if tree_magic != CHROM_TREE_MAGIC {
        return Err(BBIFileReadInfoError::InvalidChroms);
    }
    let key_size = read_u32(d, cto_u + 8, endianness);
    let val_size = read_u32(d, cto_u + 12, endianness);
    if val_size != 8 {
        return Err(BBIFileReadInfoError::InvalidChroms);
    }
    let mut chrom_info: Vec<ChromInfo> = Vec::new();
    match read_chrom_tree_block(
        d,
        endianness,
        cto + 32,
        key_size,
        CHROM_TREE_MAX_DEPTH,
        &mut chrom_info,
    ) {
        Ok(()) => {},
        Err(_) => {
            return Err(BBIFileReadInfoError::InvalidChroms);
        },
    }
    proof {
        assert(chrom_info@.subrange(0, chrom_info@.len() as int) =~= chrom_info@);
    }
    let ghost parsed = chrom_info@;
    let chrom_info = sort_chroms_by_name(chrom_info);
    proof {
        let entries = chrom_tree_chroms(
            d@,
            endianness,
            cto as int + 32,
            key_size as int,
            CHROM_TREE_MAX_DEPTH as nat,
        );
        lemma_sorted_chroms_permute(chrom_info@, parsed, entries);
        lemma_permute_unique(chrom_info@, parsed, entries);
        if forall|k: int| 0 <= k < entries.len() ==> (#[trigger] entries[k]).id < entries.len() {
            assert forall|i: int| 0 <= i < chrom_info@.len() implies (
            #[trigger] chrom_info@[i]).id < chrom_info@.len() by {
                assert(rendered_by(chrom_info@[i], entries));
                let j = choose|j: int|
                    0 <= j < entries.len() && chrom_info@[i].name@ == (
                    #[trigger] entries[j]).name && chrom_info@[i].id == entries[j].id
                        && chrom_info@[i].length == entries[j].length;
                assert(entries[j].id < entries.len());
            }
        }
    }
    Ok(BBIFileInfo { filetype, header, zoom_headers, chrom_info })
}

/// The body of the given block: its bytes as stored where the file is
/// uncompressed (`uncompress_buf_size == 0`), else their zlib inflation,
/// which must fit the declared buffer size. `None` where the block lies
/// outside the data or does not decompress.
pub open spec fn spec_block_data(d: Seq<u8>, uncompress_buf_size: u32, block: Block) -> Option<
    Seq<u8>,
> {
    if block.offset + block.size <= d.len() {
        let raw = d.subrange(block.offset as int, block.offset + block.size);
        if uncompress_buf_size == 0 {
            Some(raw)
        } else {
            match zlib_inflate(raw) {
                Some(v) => if v.len() <= uncompress_buf_size {
                    Some(v)
                } else {
                    None
                },
                None => None,
            }
        }
    } else {
        None
    }
}

/// Gets the data (uncompressed, if applicable) from a given block.
#[verifier::loop_isolation(false)]
pub fn get_block_data(d: &Vec<u8>, header: &BBIHeader, block: Block) -> (r: Result<
    Vec<u8>,
    BBIReadError,
>)
    ensures
        r matches Ok(v) ==> spec_block_data(d@, header.uncompress_buf_size, block) == Some(v@),
        r is Err ==> spec_block_data(d@, header.uncompress_buf_size, block) is None,
{
    let dl = d.len();
    if block.offset > dl as u64 || (dl as u64) - block.offset < block.size {
        return Err(BBIReadError::IoError("block lies outside the data".to_owned()));
    }
    let start = block.offset as usize;
    let size = block.size as usize;
    let mut raw: Vec<u8> = Vec::new();
    let mut k: usize = 0;
    while k < size
        invariant
            k <= size,
            block.offset + block.size <= d@.len(),
            size == block.size,
            start == block.offset,
            raw@ =~= d@.subrange(start as int, start + k),
        decreases size - k,
    {
        raw.push(d[start + k]);
        proof {
            assert(raw@ =~= d@.subrange(start as int, start + k + 1));
        }
        k = k + 1;
    }
    if header.uncompress_buf_size == 0 {
        Ok(raw)
    } else {
        match zlib_decompress_block(&raw, header.uncompress_buf_size as usize) {
            Some(v) => Ok(v),
            None => Err(BBIReadError::InvalidFile("block does not decompress".to_owned())),
        }
    }
}

/// The zoom records of the first `i` 32-byte slots of a decompressed zoom
/// block that lie on the queried chromosome and overlap the queried range.
/// The four statistics are carried as the single-precision bit patterns the
/// file stores.
pub open spec fn spec_zoom_records(
    bd: Seq<u8>,
    e: Endianness,
    chrom: u32,
    start: u32,
    end: u32,
    i: int,
) -> Seq<ZoomRecord>
    decreases i,
{
    if i <= 0 {
        Seq::empty()
    } else {
        let prior = spec_zoom_records(bd, e, chrom, start, end, i - 1);
        let base = 32 * (i - 1);
        let rec = ZoomRecord {
            chrom: spec_u32_at(bd, base, e),
            start: spec_u32_at(bd, base + 4, e),
            end: spec_u32_at(bd, base + 8, e),
            summary: Summary {
                total_items: 0,
                bases_covered: spec_u32_at(bd, base + 12, e) as u64,
                min_val: spec_u32_at(bd, base + 16, e),
                max_val: spec_u32_at(bd, base + 20, e),
                sum: spec_u32_at(bd, base + 24, e),
                sum_squares: spec_u32_at(bd, base + 28, e),
            },
        };
        if rec.chrom == chrom && rec.end > start && rec.start < end {
            prior.push(rec)
        } else {
            prior
        }
    }
}

/// Decodes the zoom records of one block and keeps those on the queried
/// chromosome that overlap `start..end`. Advances `known_offset` to the end
/// of the block.
#[verifier::loop_isolation(false)]
#[verifier::rlimit(100)]
pub fn get_zoom_block_values(
    d: &Vec<u8>,
    header: &BBIHeader,
    block: Block,
    known_offset: &mut u64,
    chrom: u32,
    start: u32,
    end: u32,
) -> (r: Result<Vec<ZoomRecord>, BBIReadError>)
    ensures
        r matches Ok(v) ==> ({
            let bd = spec_block_data(d@, header.uncompress_buf_size, block);
            &&& bd is Some
            &&& bd.unwrap().len() % 32 == 0
            &&& v@ == spec_zoom_records(
                bd.unwrap(),
                header.endianness,
                chrom,
                start,
                end,
                bd.unwrap().len() as int / 32,
            )
            &&& forall|i: int|
                0 <= i < v@.len() ==> (#[trigger] v@[i]).chrom == chrom && v@[i].end > start
                    && v@[i].start < end
        }),
        r is Err ==> ({
            let bd = spec_block_data(d@, header.uncompress_buf_size, block);
            bd is None || bd.unwrap().len() % 32 != 0
        }),
        r is Ok ==> *final(known_offset) == block.offset + block.size,
{
    let dl = d.len();
    let bd = match get_block_data(d, header, block) {
        Ok(v) => v,
        Err(e) => {
            return Err(e);
        },
    };
    let len = bd.len();
    if len % 32 != 0 {
        return Err(BBIReadError::InvalidFile("zoom block is not whole records".to_owned()));
    }
    let itemcount = len / 32;
    let mut records: Vec<ZoomRecord> = Vec::new();
    let e = header.endianness;
    let mut i: usize = 0;
    while i < itemcount
        invariant
            i <= itemcount,
            itemcount == bd@.len() / 32,
            bd@.len() % 32 == 0,
            records@ == spec_zoom_records(bd@, e, chrom, start, end, i as int),
            forall|k: int|
                0 <= k < records@.len() ==> (#[trigger] records@[k]).chrom == chrom
                    && records@[k].end > start && records@[k].start < end,
        decreases itemcount - i,
    {
        let base = 32 * i;
        let chrom_id = read_u32(&bd, base, e);
        let chrom_start = read_u32(&bd, base + 4, e);
        let chrom_end = read_u32(&bd, base + 8, e);
        let bases_covered = read_u32(&bd, base + 12, e) as u64;
        let min_val = read_u32(&bd, base + 16, e);
        let max_val = read_u32(&bd, base + 20, e);
        let sum = read_u32(&bd, base + 24, e);
        let sum_squares = read_u32(&bd, base + 28, e);
        if chrom_id == chrom && chrom_end > start && chrom_start < end {
            records.push(
                ZoomRecord {
                    chrom: chrom_id,
                    start: chrom_start,
                    end: chrom_end,
                    summary: Summary {
                        total_items: 0,
                        bases_covered,
                        min_val,
                        max_val,
                        sum,
                        sum_squares,
                    },
                },
            );
        }
        i = i + 1;
    }
    *known_offset = block.offset + block.size;
    Ok(records)
}

/// The zoom records one block contributes to a query: its decoded
/// overlapping records where it decodes as whole 32-byte slots, and a single
/// error item (`None`) where it does not.
pub open spec fn spec_zoom_block_items(
    d: Seq<u8>,
    header: BBIHeader,
    b: Block,
    chrom: u32,
    qs: u32,
    qe: u32,
) -> Seq<Option<ZoomRecord>> {
    match spec_block_data(d, header.uncompress_buf_size, b) {
        Some(bd) => if bd.len() % 32 == 0 {
            spec_zoom_records(bd, header.endianness, chrom, qs, qe, bd.len() as int / 32).map_values(
                |rec: ZoomRecord| Some(rec),
            )
        } else {
            seq![None]
        },
        None => seq![None],
    }
}

/// The zoom records a query yields over the given blocks, in block order.
pub open spec fn spec_zoom_query_items(
    d: Seq<u8>,
    header: BBIHeader,
    blocks: Seq<Block>,
    chrom: u32,
    qs: u32,
    qe: u32,
) -> Seq<Option<ZoomRecord>>
    decreases blocks.len(),
{
    if blocks.len() == 0 {
        Seq::empty()
    } else {
        spec_zoom_query_items(d, header, blocks.drop_last(), chrom, qs, qe)
            + spec_zoom_block_items(d, header, blocks.last(), chrom, qs, qe)
    }
}

/// Whether the returned zoom items render the stored ones: record items
/// pointwise equal, an error item exactly where a block failed.
pub open spec fn zoom_items_match(
    items: Seq<Result<ZoomRecord, BBIReadError>>,
    specs: Seq<Option<ZoomRecord>>,
) -> bool {
    &&& items.len() == specs.len()
    &&& forall|i: int|
        0 <= i < items.len() ==> match #[trigger] specs[i] {
            Some(rec) => items[i] == Ok::<ZoomRecord, BBIReadError>(rec),
            None => items[i] is Err,
        }
}

/// Searches the CIR tree whose 48-byte header lies at `at`: resolves the
/// chromosome name, checks the tree's magic, and walks the nodes from the
/// root just past the header.
#[verifier::loop_isolation(false)]
#[verifier::rlimit(100)]
pub fn search_cir_tree(
    d: &Vec<u8>,
    info: &BBIFileInfo,
    at: u64,
    chrom_name: &str,
    start: u32,
    end: u32,
) -> (r: Result<Vec<Block>, CirTreeSearchError>)
    ensures
        spec_chrom_id(info.chrom_info@, chrom_name@) is None ==> (r matches Err(e) && (
        e matches CirTreeSearchError::InvalidChromosome(n) && n@ == chrom_name@)),
        r matches Err(e3) ==> (e3 is InvalidChromosome <==> spec_chrom_id(
            info.chrom_info@,
            chrom_name@,
        ) is None),
        spec_chrom_id(info.chrom_info@, chrom_name@) is Some && at + 48 <= d@.len() && spec_u32_at(
            d@,
            at as int,
            info.header.endianness,
        ) == CIR_TREE_MAGIC && cir_valid(
            d@,
            info.header.endianness,
            at + 48,
            spec_chrom_id(info.chrom_info@, chrom_name@).unwrap(),
            start,
            end,
            CIR_TREE_MAX_DEPTH as nat,
        ) ==> r is Ok,
        r matches Ok(blocks) ==> ({
            let e = info.header.endianness;
            let chrom_ix = spec_chrom_id(info.chrom_info@, chrom_name@).unwrap();
            &&& spec_chrom_id(info.chrom_info@, chrom_name@) is Some
            &&& at + 48 <= d@.len()
            &&& spec_u32_at(d@, at as int, e) == CIR_TREE_MAGIC
            &&& cir_valid(d@, e, at + 48, chrom_ix, start, end, CIR_TREE_MAX_DEPTH as nat)
            &&& blocks@ == cir_search(
                d@,
                e,
                at + 48,
                chrom_ix,
                start,
                end,
                CIR_TREE_MAX_DEPTH as nat,
            )
        }),
        spec_chrom_id(info.chrom_info@, chrom_name@) is Some && r is Err ==> (r matches Err(e2)
            && (e2 is UnknownMagic <==> at + 48 <= d@.len() && spec_u32_at(
            d@,
            at as int,
            info.header.endianness,
        ) != CIR_TREE_MAGIC)),
{
    let chrom_ix = match info.chrom_id(chrom_name) {
        Ok(id) => id,
        Err(e) => {
            return Err(CirTreeSearchError::InvalidChromosome(e.0));
        },
    };
    let endianness = info.header.endianness;
    let dl = d.len();
    if at > dl as u64 || (dl as u64) - at < 48 {
        return Err(CirTreeSearchError::InvalidFile("data ends within the tree header".to_owned()));
    }
    let magic = read_u32(d, at as usize, endianness);
    if magic != CIR_TREE_MAGIC {
        return Err(CirTreeSearchError::UnknownMagic);
    }
    let mut blocks: Vec<Block> = Vec::new();
    match search_overlapping_blocks(
        d,
        endianness,
        at + 48,
        chrom_ix,
        start,
        end,
        CIR_TREE_MAX_DEPTH,
        &mut blocks,
    ) {
        Ok(()) => {
            proof {
                assert(blocks@ =~= cir_search(
                    d@,
                    endianness,
                    at + 48,
                    chrom_ix,
                    start,
                    end,
                    CIR_TREE_MAX_DEPTH as nat,
                ));
            }
            Ok(blocks)
        },
        Err(e) => Err(e),
    }
}

/// Matching segments concatenate to a matching whole.
proof fn lemma_chroms_match_concat(
    whole: Seq<ChromInfo>,
    a: Seq<ChromInfo>,
    b: Seq<ChromInfo>,
    ea: Seq<ChromSpecEntry>,
    eb: Seq<ChromSpecEntry>,
)
    requires
        whole =~= a + b,
        chroms_match(a, ea),
        chroms_match(b, eb),
    ensures
        chroms_match(whole, ea + eb),
{
    assert forall|i: int| 0 <= i < whole.len() implies (#[trigger] whole[i]).name@ == (ea + eb)[i].name
        && whole[i].id == (ea + eb)[i].id && whole[i].length == (ea + eb)[i].length by {
        if i < a.len() {
            assert(whole[i] == a[i]);
        } else {
            assert(whole[i] == b[i - a.len()]);
        }
    }
}

/// A sound chromosome child list makes each child sound.
proof fn lemma_chrom_children_valid_index(
    d: Seq<u8>,
    e: Endianness,
    off: int,
    ks: int,
    depth: nat,
    j: int,
    n: int,
)
    requires
        chrom_children_valid(d, e, off, ks, depth, n),
        0 <= j < n,
    ensures
        chrom_tree_valid(d, e, chrom_child(d, e, off, ks, j) as int, ks, depth),
    decreases n,
{
    if j < n - 1 {
        lemma_chrom_children_valid_index(d, e, off, ks, depth, j, n - 1);
    }
}

} // verus!
