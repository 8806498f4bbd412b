//! The CIR tree (an R-tree over genomic coordinates): the on-disk block
//! index of a BBI file, and the search that yields every data block whose
//! coordinate bounds overlap a query.

use crate::bbi::{Block, Endianness};
use crate::codec::{read_u16, read_u32, read_u64, spec_u16_at, spec_u32_at, spec_u64_at};
use vstd::prelude::*;

verus! {

/// How deep a well-formed CIR tree can nest. The search refuses a file whose
/// tree nests deeper: such a file is corrupt (a genuine index is a few levels
/// deep), and a cycle among node offsets would otherwise not terminate.
pub const CIR_TREE_MAX_DEPTH: u32 = 64;

/// Compares the position `(chrom1, chrom1_base)` against `(chrom2,
/// chrom2_base)` in lexicographic order: the chromosome index decides first,
/// the base within it second.
pub open spec fn spec_compare_position(chrom1: u32, chrom1_base: u32, chrom2: u32, chrom2_base: u32) -> i8 {
    if chrom1 < chrom2 {
        -1i8
    } else if chrom1 > chrom2 {
        1i8
    } else if chrom1_base < chrom2_base {
        -1i8
    } else if chrom1_base > chrom2_base {
        1i8
    } else {
        0i8
    }
}

/// Whether the query `chromq:chromq_start..chromq_end` overlaps the bounds
/// running from `(chromb1, chromb1_start)` to `(chromb2, chromb2_end)`: the
/// query must begin at or before the bounds' end and end at or after the
/// bounds' start.
pub open spec fn spec_overlaps(
    chromq: u32,
    chromq_start: u32,
    chromq_end: u32,
    chromb1: u32,
    chromb1_start: u32,
    chromb2: u32,
    chromb2_end: u32,
) -> bool {
    spec_compare_position(chromq, chromq_start, chromb2, chromb2_end) <= 0
        && spec_compare_position(chromq, chromq_end, chromb1, chromb1_start) >= 0
}

/// Compares two `(chromosome, base)` positions lexicographically.
#[inline]
pub fn compare_position(chrom1: u32, chrom1_base: u32, chrom2: u32, chrom2_base: u32) -> (r: i8)
    ensures
        r == spec_compare_position(chrom1, chrom1_base, chrom2, chrom2_base),
{
    if chrom1 < chrom2 {
        -1
    } else if chrom1 > chrom2 {
        1
    } else if chrom1_base < chrom2_base {
        -1
    } else if chrom1_base > chrom2_base {
        1
    } else {
        0
    }
}

/// Whether a query range overlaps a bounding range of the index.
#[inline]
pub fn overlaps(
    chromq: u32,
    chromq_start: u32,
    chromq_end: u32,
    chromb1: u32,
    chromb1_start: u32,
    chromb2: u32,
    chromb2_end: u32,
) -> (r: bool)
    ensures
        r == spec_overlaps(
            chromq,
            chromq_start,
            chromq_end,
            chromb1,
            chromb1_start,
            chromb2,
            chromb2_end,
        ),
{
    compare_position(chromq, chromq_start, chromb2, chromb2_end) <= 0 && compare_position(
        chromq,
        chromq_end,
        chromb1,
        chromb1_start,
    ) >= 0
}

/// One leaf entry of the index: coordinate bounds and the file region of the
/// data block they index.
#[derive(Copy, Clone, Debug, PartialEq, Eq, Structural)]
pub struct CirEntry {
    pub start_chrom_ix: u32,
    pub start_base: u32,
    pub end_chrom_ix: u32,
    pub end_base: u32,
    pub offset: u64,
    pub size: u64,
}

/// Whether byte `off` begins a leaf node (`1`) rather than an internal one.
pub open spec fn node_isleaf(d: Seq<u8>, off: int) -> u8 {
    d[off]
}

/// How many entries the node at `off` declares.
pub open spec fn node_count(d: Seq<u8>, off: int, e: Endianness) -> u16 {
    spec_u16_at(d, off + 2, e)
}

/// The `i`-th leaf entry of the leaf node at `off`. A leaf entry is 32 bytes:
/// the bounds, then the data offset and size.
pub open spec fn leaf_entry(d: Seq<u8>, off: int, e: Endianness, i: int) -> CirEntry {
    let base = off + 4 + 32 * i;
    CirEntry {
        start_chrom_ix: spec_u32_at(d, base, e),
        start_base: spec_u32_at(d, base + 4, e),
        end_chrom_ix: spec_u32_at(d, base + 8, e),
        end_base: spec_u32_at(d, base + 12, e),
        offset: spec_u64_at(d, base + 16, e),
        size: spec_u64_at(d, base + 24, e),
    }
}

/// The bounds of the `i`-th entry of the internal node at `off`, as
/// `(start_chrom_ix, start_base, end_chrom_ix, end_base)`. An internal entry
/// is 24 bytes: the bounds, then the child node's offset.
pub open spec fn internal_bounds(d: Seq<u8>, off: int, e: Endianness, i: int) -> (u32, u32, u32, u32) {
    let base = off + 4 + 24 * i;
    (
        spec_u32_at(d, base, e),
        spec_u32_at(d, base + 4, e),
        spec_u32_at(d, base + 8, e),
        spec_u32_at(d, base + 12, e),
    )
}

/// The child offset of the `i`-th entry of the internal node at `off`.
pub open spec fn internal_child(d: Seq<u8>, off: int, e: Endianness, i: int) -> u64 {
    spec_u64_at(d, off + 4 + 24 * i + 16, e)
}

/// Whether a node's entries lie within the data. The node buffer spans 32
/// bytes per entry whichever kind the node is, as the reader takes it.
pub open spec fn node_in_bounds(d: Seq<u8>, off: int, e: Endianness) -> bool {
    &&& 0 <= off
    &&& off + 4 <= d.len()
    &&& off + 4 + 32 * (node_count(d, off, e) as int) <= d.len()
}

/// Whether the `i`-th entry of the internal node at `off` overlaps the query.
pub open spec fn internal_entry_overlaps(
    d: Seq<u8>,
    off: int,
    e: Endianness,
    i: int,
    chrom_ix: u32,
    start: u32,
    end: u32,
) -> bool {
    let (c1, b1, c2, b2) = internal_bounds(d, off, e, i);
    spec_overlaps(chrom_ix, start, end, c1, b1, c2, b2)
}

/// Whether the `i`-th entry of the leaf node at `off` overlaps the query.
pub open spec fn leaf_entry_overlaps(
    d: Seq<u8>,
    off: int,
    e: Endianness,
    i: int,
    chrom_ix: u32,
    start: u32,
    end: u32,
) -> bool {
    let en = leaf_entry(d, off, e, i);
    spec_overlaps(chrom_ix, start, end, en.start_chrom_ix, en.start_base, en.end_chrom_ix, en.end_base)
}

/// Whether the search of the node at `off` runs into no structural fault:
/// the node lies within the data, its kind byte is `0` or `1`, and — for an
/// internal node, which must still have depth budget left — every child the
/// query descends into is sound in turn.
pub open spec fn cir_valid(
    d: Seq<u8>,
    e: Endianness,
    off: int,
    chrom_ix: u32,
    start: u32,
    end: u32,
    depth: nat,
) -> bool
    decreases depth, 0int,
{
    &&& node_in_bounds(d, off, e)
    &&& (node_isleaf(d, off) == 1 || node_isleaf(d, off) == 0)
    &&& (node_isleaf(d, off) == 0 ==> depth > 0 && cir_children_valid(
        d,
        e,
        off,
        chrom_ix,
        start,
        end,
        (depth - 1) as nat,
        node_count(d, off, e) as int,
    ))
}

/// Whether the first `i` children of the internal node at `off` that the
/// query overlaps are sound.
pub open spec fn cir_children_valid(
    d: Seq<u8>,
    e: Endianness,
    off: int,
    chrom_ix: u32,
    start: u32,
    end: u32,
    depth: nat,
    i: int,
) -> bool
    decreases depth, 1int + i,
{
    if i <= 0 {
        true
    } else {
        &&& cir_children_valid(d, e, off, chrom_ix, start, end, depth, i - 1)
        &&& (internal_entry_overlaps(d, off, e, i - 1, chrom_ix, start, end) ==> cir_valid(
            d,
            e,
            internal_child(d, off, e, i - 1) as int,
            chrom_ix,
            start,
            end,
            depth,
        ))
    }
}

/// The blocks of the first `i` leaf entries of the leaf node at `off` that
/// overlap the query, in entry order.
pub open spec fn cir_leaf_blocks(
    d: Seq<u8>,
    e: Endianness,
    off: int,
    chrom_ix: u32,
    start: u32,
    end: u32,
    i: int,
) -> Seq<Block>
    decreases i,
{
    if i <= 0 {
        Seq::empty()
    } else {
        let prior = cir_leaf_blocks(d, e, off, chrom_ix, start, end, i - 1);
        if leaf_entry_overlaps(d, off, e, i - 1, chrom_ix, start, end) {
            let en = leaf_entry(d, off, e, i - 1);
            prior.push(Block { offset: en.offset, size: en.size })
        } else {
            prior
        }
    }
}

/// The blocks the search of the node at `off` yields, in traversal order.
pub open spec fn cir_search(
    d: Seq<u8>,
    e: Endianness,
    off: int,
    chrom_ix: u32,
    start: u32,
    end: u32,
    depth: nat,
) -> Seq<Block>
    decreases depth, 0int,
{
    if node_isleaf(d, off) == 1 {
        cir_leaf_blocks(d, e, off, chrom_ix, start, end, node_count(d, off, e) as int)
    } else if depth > 0 {
        cir_children_blocks(
            d,
            e,
            off,
            chrom_ix,
            start,
            end,
            (depth - 1) as nat,
            node_count(d, off, e) as int,
        )
    } else {
        Seq::empty()
    }
}

/// The blocks the first `i` children of the internal node at `off` yield.
pub open spec fn cir_children_blocks(
    d: Seq<u8>,
    e: Endianness,
    off: int,
    chrom_ix: u32,
    start: u32,
    end: u32,
    depth: nat,
    i: int,
) -> Seq<Block>
    decreases depth, 1int + i,
{
    if i <= 0 {
        Seq::empty()
    } else {
        let prior = cir_children_blocks(d, e, off, chrom_ix, start, end, depth, i - 1);
        if internal_entry_overlaps(d, off, e, i - 1, chrom_ix, start, end) {
            prior + cir_search(
                d,
                e,
                internal_child(d, off, e, i - 1) as int,
                chrom_ix,
                start,
                end,
                depth,
            )
        } else {
            prior
        }
    }
}

/// Whether every node reachable from `off` is sound, whichever query a
/// search carries: as `cir_valid`, but over all children.
pub open spec fn cir_valid_full(d: Seq<u8>, e: Endianness, off: int, depth: nat) -> bool
    decreases depth, 0int,
{
    &&& node_in_bounds(d, off, e)
    &&& (node_isleaf(d, off) == 1 || node_isleaf(d, off) == 0)
    &&& (node_isleaf(d, off) == 0 ==> depth > 0 && cir_children_valid_full(
        d,
        e,
        off,
        (depth - 1) as nat,
        node_count(d, off, e) as int,
    ))
}

/// Whether the first `i` children of the internal node at `off` are sound,
/// whichever query a search carries.
pub open spec fn cir_children_valid_full(d: Seq<u8>, e: Endianness, off: int, depth: nat, i: int) -> bool
    decreases depth, 1int + i,
{
    if i <= 0 {
        true
    } else {
        &&& cir_children_valid_full(d, e, off, depth, i - 1)
        &&& cir_valid_full(d, e, internal_child(d, off, e, i - 1) as int, depth)
    }
}

/// Every leaf entry reachable from the node at `off`, in traversal order.
pub open spec fn cir_entries(d: Seq<u8>, e: Endianness, off: int, depth: nat) -> Seq<CirEntry>
    decreases depth, 0int,
{
    if node_isleaf(d, off) == 1 {
        cir_leaf_entries(d, e, off, node_count(d, off, e) as int)
    } else if depth > 0 {
        cir_children_entries(d, e, off, (depth - 1) as nat, node_count(d, off, e) as int)
    } else {
        Seq::empty()
    }
}

/// The first `i` entries of the leaf node at `off`.
pub open spec fn cir_leaf_entries(d: Seq<u8>, e: Endianness, off: int, i: int) -> Seq<CirEntry>
    decreases i,
{
    if i <= 0 {
        Seq::empty()
    } else {
        cir_leaf_entries(d, e, off, i - 1).push(leaf_entry(d, off, e, i - 1))
    }
}

/// Every leaf entry reachable through the first `i` children of the internal
/// node at `off`.
pub open spec fn cir_children_entries(d: Seq<u8>, e: Endianness, off: int, depth: nat, i: int) -> Seq<
    CirEntry,
>
    decreases depth, 1int + i,
{
    if i <= 0 {
        Seq::empty()
    } else {
        cir_children_entries(d, e, off, depth, i - 1) + cir_entries(
            d,
            e,
            internal_child(d, off, e, i - 1) as int,
            depth,
        )
    }
}

/// Whether the leaf entry's span lies within the bounds running from
/// `(c1, b1)` to `(c2, b2)`.
pub open spec fn entry_within(en: CirEntry, c1: u32, b1: u32, c2: u32, b2: u32) -> bool {
    spec_compare_position(c1, b1, en.start_chrom_ix, en.start_base) <= 0
        && spec_compare_position(en.end_chrom_ix, en.end_base, c2, b2) <= 0
}

/// Whether every internal entry's bounds contain the span of every leaf
/// entry reachable beneath it — what a writer guarantees of the index.
pub open spec fn cir_wf(d: Seq<u8>, e: Endianness, off: int, depth: nat) -> bool
    decreases depth, 0int,
{
    node_isleaf(d, off) == 0 && depth > 0 ==> cir_children_wf(
        d,
        e,
        off,
        (depth - 1) as nat,
        node_count(d, off, e) as int,
    )
}

/// Bounds wellformedness of the first `i` children of the node at `off`.
pub open spec fn cir_children_wf(d: Seq<u8>, e: Endianness, off: int, depth: nat, i: int) -> bool
    decreases depth, 1int + i,
{
    if i <= 0 {
        true
    } else {
        &&& cir_children_wf(d, e, off, depth, i - 1)
        &&& ({
            let (c1, b1, c2, b2) = internal_bounds(d, off, e, i - 1);
            let child = internal_child(d, off, e, i - 1) as int;
            &&& cir_wf(d, e, child, depth)
            &&& forall|k: int|
                0 <= k < cir_entries(d, e, child, depth).len() ==> entry_within(
                    #[trigger] cir_entries(d, e, child, depth)[k],
                    c1,
                    b1,
                    c2,
                    b2,
                )
        })
    }
}

/// The first `i` entries of a leaf node are the entries `0..i`, in order.
proof fn lemma_leaf_entries_props(d: Seq<u8>, e: Endianness, off: int, i: int)
    requires
        i >= 0,
    ensures
        cir_leaf_entries(d, e, off, i).len() == i,
        forall|k: int| 0 <= k < i ==> cir_leaf_entries(d, e, off, i)[k] == leaf_entry(d, off, e, k),
    decreases i,
{
    if i > 0 {
        lemma_leaf_entries_props(d, e, off, i - 1);
    }
}

/// A leaf entry that overlaps the query has its block in the leaf's result.
proof fn lemma_leaf_blocks_contains(
    d: Seq<u8>,
    e: Endianness,
    off: int,
    chrom_ix: u32,
    start: u32,
    end: u32,
    i: int,
    k: int,
)
    requires
        0 <= k < i,
        leaf_entry_overlaps(d, off, e, k, chrom_ix, start, end),
    ensures
        cir_leaf_blocks(d, e, off, chrom_ix, start, end, i).contains(
            Block { offset: leaf_entry(d, off, e, k).offset, size: leaf_entry(d, off, e, k).size },
        ),
    decreases i,
{
    let b = Block { offset: leaf_entry(d, off, e, k).offset, size: leaf_entry(d, off, e, k).size };
    if k == i - 1 {
        let prior = cir_leaf_blocks(d, e, off, chrom_ix, start, end, i - 1);
        assert(prior.push(b)[prior.len() as int] == b);
    } else {
        lemma_leaf_blocks_contains(d, e, off, chrom_ix, start, end, i - 1, k);
        let prior = cir_leaf_blocks(d, e, off, chrom_ix, start, end, i - 1);
        let j = choose|j: int| 0 <= j < prior.len() && prior[j] == b;
        if leaf_entry_overlaps(d, off, e, i - 1, chrom_ix, start, end) {
            assert(cir_leaf_blocks(d, e, off, chrom_ix, start, end, i)[j] == b);
        }
    }
}

/// Locates the child subtree an entry of an internal node's entry list comes
/// from.
proof fn lemma_children_entries_locate(
    d: Seq<u8>,
    e: Endianness,
    off: int,
    depth: nat,
    i: int,
    k: int,
) -> (r: (int, int))
    requires
        0 <= k < cir_children_entries(d, e, off, depth, i).len(),
    ensures
        0 <= r.0 < i,
        0 <= r.1 < cir_entries(d, e, internal_child(d, off, e, r.0) as int, depth).len(),
        cir_children_entries(d, e, off, depth, i)[k] == cir_entries(
            d,
            e,
            internal_child(d, off, e, r.0) as int,
            depth,
        )[r.1],
    decreases i,
{
    let prior = cir_children_entries(d, e, off, depth, i - 1);
    if k < prior.len() {
        lemma_children_entries_locate(d, e, off, depth, i - 1, k)
    } else {
        (i - 1, k - prior.len())
    }
}

/// A sound child list makes each child sound.
proof fn lemma_children_valid_full_index(
    d: Seq<u8>,
    e: Endianness,
    off: int,
    depth: nat,
    i: int,
    j: int,
)
    requires
        cir_children_valid_full(d, e, off, depth, i),
        0 <= j < i,
    ensures
        cir_valid_full(d, e, internal_child(d, off, e, j) as int, depth),
    decreases i,
{
    if j < i - 1 {
        lemma_children_valid_full_index(d, e, off, depth, i - 1, j);
    }
}

/// A bounds-wellformed child list makes each child bounds-wellformed, with
/// its entries within the child's declared bounds.
proof fn lemma_children_wf_index(d: Seq<u8>, e: Endianness, off: int, depth: nat, i: int, j: int)
    requires
        cir_children_wf(d, e, off, depth, i),
        0 <= j < i,
    ensures
        cir_wf(d, e, internal_child(d, off, e, j) as int, depth),
        forall|k: int|
            0 <= k < cir_entries(d, e, internal_child(d, off, e, j) as int, depth).len()
                ==> entry_within(
                #[trigger] cir_entries(d, e, internal_child(d, off, e, j) as int, depth)[k],
                internal_bounds(d, off, e, j).0,
                internal_bounds(d, off, e, j).1,
                internal_bounds(d, off, e, j).2,
                internal_bounds(d, off, e, j).3,
            ),
    decreases i,
{
    if j < i - 1 {
        lemma_children_wf_index(d, e, off, depth, i - 1, j);
    }
}

/// A block found beneath an overlapping child is in the node's result.
proof fn lemma_children_blocks_contains(
    d: Seq<u8>,
    e: Endianness,
    off: int,
    chrom_ix: u32,
    start: u32,
    end: u32,
    depth: nat,
    i: int,
    j: int,
    b: Block,
)
    requires
        0 <= j < i,
        internal_entry_overlaps(d, off, e, j, chrom_ix, start, end),
        cir_search(d, e, internal_child(d, off, e, j) as int, chrom_ix, start, end, depth).contains(
            b,
        ),
    ensures
        cir_children_blocks(d, e, off, chrom_ix, start, end, depth, i).contains(b),
    decreases i,
{
    let prior = cir_children_blocks(d, e, off, chrom_ix, start, end, depth, i - 1);
    if j == i - 1 {
        let sub = cir_search(d, e, internal_child(d, off, e, j) as int, chrom_ix, start, end, depth);
        let k = choose|k: int| 0 <= k < sub.len() && sub[k] == b;
        assert((prior + sub)[prior.len() + k] == b);
    } else {
        lemma_children_blocks_contains(d, e, off, chrom_ix, start, end, depth, i - 1, j, b);
        let k = choose|k: int| 0 <= k < prior.len() && prior[k] == b;
        if internal_entry_overlaps(d, off, e, i - 1, chrom_ix, start, end) {
            let sub = cir_search(
                d,
                e,
                internal_child(d, off, e, i - 1) as int,
                chrom_ix,
                start,
                end,
                depth,
            );
            assert((prior + sub)[k] == b);
        }
    }
}

/// A tree sound for every query is sound for each one.
proof fn lemma_valid_full_implies_valid(
    d: Seq<u8>,
    e: Endianness,
    off: int,
    chrom_ix: u32,
    start: u32,
    end: u32,
    depth: nat,
)
    requires
        cir_valid_full(d, e, off, depth),
    ensures
        cir_valid(d, e, off, chrom_ix, start, end, depth),
    decreases depth, 0int,
{
    if node_isleaf(d, off) == 0 {
        lemma_children_valid_full_implies_valid(
            d,
            e,
            off,
            chrom_ix,
            start,
            end,
            (depth - 1) as nat,
            node_count(d, off, e) as int,
        );
    }
}

/// Child lists sound for every query are sound for each one.
proof fn lemma_children_valid_full_implies_valid(
    d: Seq<u8>,
    e: Endianness,
    off: int,
    chrom_ix: u32,
    start: u32,
    end: u32,
    depth: nat,
    i: int,
)
    requires
        cir_children_valid_full(d, e, off, depth, i),
    ensures
        cir_children_valid(d, e, off, chrom_ix, start, end, depth, i),
    decreases depth, 1int + i,
{
    if i > 0 {
        lemma_children_valid_full_implies_valid(d, e, off, chrom_ix, start, end, depth, i - 1);
        lemma_valid_full_implies_valid(
            d,
            e,
            internal_child(d, off, e, i - 1) as int,
            chrom_ix,
            start,
            end,
            depth,
        );
    }
}

/// Law: the search returns every overlapping block — no false negatives. In
/// a sound tree whose internal bounds contain their subtrees' entries, every
/// leaf entry that overlaps the query has its block in the search's result;
/// a block the search does not return therefore indexes only records outside
/// the query.
pub proof fn lemma_cir_search_no_false_negatives(
    d: Seq<u8>,
    e: Endianness,
    off: int,
    chrom_ix: u32,
    start: u32,
    end: u32,
    depth: nat,
    k: int,
)
    requires
        cir_valid_full(d, e, off, depth),
        cir_wf(d, e, off, depth),
        0 <= k < cir_entries(d, e, off, depth).len(),
        ({
            let en = cir_entries(d, e, off, depth)[k];
            spec_overlaps(
                chrom_ix,
                start,
                end,
                en.start_chrom_ix,
                en.start_base,
                en.end_chrom_ix,
                en.end_base,
            )
        }),
    ensures
        ({
            let en = cir_entries(d, e, off, depth)[k];
            cir_search(d, e, off, chrom_ix, start, end, depth).contains(
                Block { offset: en.offset, size: en.size },
            )
        }),
    decreases depth,
{
    let en = cir_entries(d, e, off, depth)[k];
    let count = node_count(d, off, e) as int;
    if node_isleaf(d, off) == 1 {
        lemma_leaf_entries_props(d, e, off, count);
        lemma_leaf_blocks_contains(d, e, off, chrom_ix, start, end, count, k);
    } else {
        let (j, k2) = lemma_children_entries_locate(d, e, off, (depth - 1) as nat, count, k);
        let child = internal_child(d, off, e, j) as int;
        lemma_children_valid_full_index(d, e, off, (depth - 1) as nat, count, j);
        lemma_children_wf_index(d, e, off, (depth - 1) as nat, count, j);
        assert(entry_within(
            cir_entries(d, e, child, (depth - 1) as nat)[k2],
            internal_bounds(d, off, e, j).0,
            internal_bounds(d, off, e, j).1,
            internal_bounds(d, off, e, j).2,
            internal_bounds(d, off, e, j).3,
        ));
        assert(internal_entry_overlaps(d, off, e, j, chrom_ix, start, end));
        lemma_cir_search_no_false_negatives(
            d,
            e,
            child,
            chrom_ix,
            start,
            end,
            (depth - 1) as nat,
            k2,
        );
        lemma_children_blocks_contains(
            d,
            e,
            off,
            chrom_ix,
            start,
            end,
            (depth - 1) as nat,
            count,
            j,
            Block { offset: en.offset, size: en.size },
        );
    }
}

/// Why an R-tree search failed.
#[derive(Debug)]
pub enum CirTreeSearchError {
    /// The passed chromosome was not found in the file.
    InvalidChromosome(String),
    /// The tree header's magic number is wrong.
    UnknownMagic,
    /// A node of the tree is malformed or out of bounds.
    InvalidFile(String),
}

/// Sound prefixes of a sound child list stay sound: the `i`-th overlapping
/// child of a node whose first `n` children are sound is itself sound.
pub proof fn lemma_children_valid_index(
    d: Seq<u8>,
    e: Endianness,
    off: int,
    chrom_ix: u32,
    start: u32,
    end: u32,
    depth: nat,
    i: int,
    n: int,
)
    requires
        cir_children_valid(d, e, off, chrom_ix, start, end, depth, n),
        0 <= i < n,
        internal_entry_overlaps(d, off, e, i, chrom_ix, start, end),
    ensures
        cir_valid(d, e, internal_child(d, off, e, i) as int, chrom_ix, start, end, depth),
    decreases n,
{
    if i < n - 1 {
        lemma_children_valid_index(d, e, off, chrom_ix, start, end, depth, i, n - 1);
    }
}

/// Walks the node at `node_off` and appends to `blocks` the `(offset, size)`
/// of every indexed data block whose bounds overlap the query, in traversal
/// order. Fails, touching nothing the caller relies on, exactly when the
/// walk runs into a malformed node.
#[verifier::loop_isolation(false)]
#[verifier::rlimit(100)]
#[verifier::spinoff_prover]
pub fn search_overlapping_blocks(
    d: &Vec<u8>,
    e: Endianness,
    node_off: u64,
    chrom_ix: u32,
    start: u32,
    end: u32,
    depth: u32,
    blocks: &mut Vec<Block>,
) -> (r: Result<(), CirTreeSearchError>)
    ensures
        r is Ok ==> cir_valid(d@, e, node_off as int, chrom_ix, start, end, depth as nat)
            && final(blocks)@ == old(blocks)@ + cir_search(
            d@,
            e,
            node_off as int,
            chrom_ix,
            start,
            end,
            depth as nat,
        ),
        r is Err ==> !cir_valid(d@, e, node_off as int, chrom_ix, start, end, depth as nat),
        r matches Err(err) ==> err is InvalidFile,
        final(blocks)@.len() >= old(blocks)@.len() && final(blocks)@.subrange(
            0,
            old(blocks)@.len() as int,
        ) == old(blocks)@,
    decreases depth,
{
    let dl = d.len();
    if node_off > dl as u64 || (dl as u64) - node_off < 4 {
        return Err(CirTreeSearchError::InvalidFile("cir tree node out of bounds".to_owned()));
    }
    let off = node_off as usize;
    let isleaf = d[off];
    if !(isleaf == 0 || isleaf == 1) {
        return Err(CirTreeSearchError::InvalidFile("unexpected node kind".to_owned()));
    }
    let count = read_u16(d, off + 2, e);
    // The node buffer spans 32 bytes per entry whichever kind the node is.
    if (count as u64) * 32 > (dl as u64) - (node_off + 4) {
        return Err(CirTreeSearchError::InvalidFile("cir tree node out of bounds".to_owned()));
    }
    if isleaf == 1 {
        let mut i: usize = 0;
        while i < count as usize
            invariant
                i <= count as usize,
                blocks@ == old(blocks)@ + cir_leaf_blocks(
                    d@,
                    e,
                    node_off as int,
                    chrom_ix,
                    start,
                    end,
                    i as int,
                ),
            decreases count as int - i,
        {
            let base = off + 4 + 32 * i;
            let start_chrom_ix = read_u32(d, base, e);
            let start_base = read_u32(d, base + 4, e);
            let end_chrom_ix = read_u32(d, base + 8, e);
            let end_base = read_u32(d, base + 12, e);
            let data_offset = read_u64(d, base + 16, e);
            let data_size = read_u64(d, base + 24, e);
            let block_overlaps = overlaps(
                chrom_ix,
                start,
                end,
                start_chrom_ix,
                start_base,
                end_chrom_ix,
                end_base,
            );
            if block_overlaps {
                blocks.push(Block { offset: data_offset, size: data_size });
            }
            i = i + 1;
        }
        Ok(())
    } else {
        if depth == 0 {
            return Err(CirTreeSearchError::InvalidFile("cir tree nests too deep".to_owned()));
        }
        let mut i: usize = 0;
        while i < count as usize
            invariant
                i <= count as usize,
                cir_children_valid(
                    d@,
                    e,
                    node_off as int,
                    chrom_ix,
                    start,
                    end,
                    (depth - 1) as nat,
                    i as int,
                ),
                blocks@ == old(blocks)@ + cir_children_blocks(
                    d@,
                    e,
                    node_off as int,
                    chrom_ix,
                    start,
                    end,
                    (depth - 1) as nat,
                    i as int,
                ),
            decreases count as int - i,
        {
            let base = off + 4 + 24 * i;
            let start_chrom_ix = read_u32(d, base, e);
            let start_base = read_u32(d, base + 4, e);
            let end_chrom_ix = read_u32(d, base + 8, e);
            let end_base = read_u32(d, base + 12, e);
            let child_offset = read_u64(d, base + 16, e);
            let block_overlaps = overlaps(
                chrom_ix,
                start,
                end,
                start_chrom_ix,
                start_base,
                end_chrom_ix,
                end_base,
            );
            if block_overlaps {
                match search_overlapping_blocks(
                    d,
                    e,
                    child_offset,
                    chrom_ix,
                    start,
                    end,
                    depth - 1,
                    blocks,
                ) {
                    Ok(()) => {},
                    Err(err) => {
                        proof {
                            assert(!cir_valid(
                                d@,
                                e,
                                node_off as int,
                                chrom_ix,
                                start,
                                end,
                                depth as nat,
                            )) by {
                                if cir_valid(
                                    d@,
                                    e,
                                    node_off as int,
                                    chrom_ix,
                                    start,
                                    end,
                                    depth as nat,
                                ) {
                                    lemma_children_valid_index(
                                        d@,
                                        e,
                                        node_off as int,
                                        chrom_ix,
                                        start,
                                        end,
                                        (depth - 1) as nat,
                                        i as int,
                                        node_count(d@, node_off as int, e) as int,
                                    );
                                }
                            }
                        }
                        return Err(err);
                    },
                }
            }
            i = i + 1;
        }
        Ok(())
    }
}

} // verus!
