//! Parsing bed-like text lines, and the chromosome bookkeeping of merging
//! several files: the pieces of the command-line tools that decide, away
//! from their input and output streams.

use crate::bbi::ChromInfo;
use crate::bbiread::{bytes_to_string, str_eq};
use vstd::prelude::*;

verus! {

/// Why a bed line was rejected.
#[derive(Debug)]
pub enum BedParseError {
    /// The line holds no chromosome field.
    MissingChrom,
    /// The chromosome field is not UTF-8.
    InvalidChrom,
    /// The line holds no start field.
    MissingStart,
    /// The start field is not an unsigned number in range.
    InvalidStart,
    /// The line holds no end field.
    MissingEnd,
    /// The end field is not an unsigned number in range.
    InvalidEnd,
}

/// Whether the byte is ASCII whitespace, as trimming a line's end removes.
pub open spec fn is_ascii_ws(b: u8) -> bool {
    b == 0x20 || (0x09 <= b <= 0x0D)
}

/// The line with trailing ASCII whitespace removed.
pub open spec fn trim_end_ws(line: Seq<u8>) -> Seq<u8>
    decreases line.len(),
{
    if line.len() > 0 && is_ascii_ws(line[line.len() - 1]) {
        trim_end_ws(line.drop_last())
    } else {
        line
    }
}

/// The first tab at or after `pos`, or the end of the line.
pub open spec fn find_tab(line: Seq<u8>, pos: int) -> int
    decreases line.len() - pos
    when 0 <= pos <= line.len()
{
    if pos >= line.len() {
        line.len() as int
    } else if line[pos] == 9 {
        pos
    } else {
        find_tab(line, pos + 1)
    }
}

/// The numeric value of the decimal digits `text[from..to]`.
pub open spec fn digits_value(text: Seq<u8>, from: int, to: int) -> int
    decreases to - from,
{
    if to <= from {
        0
    } else {
        digits_value(text, from, to - 1) * 10 + (text[to - 1] - 48)
    }
}

/// Whether the bytes are a number `u32` accepts: an optional leading plus
/// sign, then one or more decimal digits, whose value fits 32 bits.
pub open spec fn spec_valid_u32_text(text: Seq<u8>) -> bool {
    let digits_from: int = if text.len() > 0 && text[0] == 43 {
        1
    } else {
        0
    };
    &&& text.len() > digits_from
    &&& (forall|i: int| digits_from <= i < text.len() ==> 48 <= #[trigger] text[i] <= 57)
    &&& digits_value(text, digits_from, text.len() as int) <= u32::MAX
}

/// The value of a valid number text.
pub open spec fn spec_u32_text_value(text: Seq<u8>) -> int {
    let digits_from: int = if text.len() > 0 && text[0] == 43 {
        1
    } else {
        0
    };
    digits_value(text, digits_from, text.len() as int)
}

/// Parses a `u32` from the bytes `text[from..to]`, as `str::parse` reads it:
/// an optional plus sign, then decimal digits.
#[verifier::loop_isolation(false)]
fn parse_u32_field(text: &Vec<u8>, from: usize, to: usize) -> (r: Option<u32>)
    requires
        from <= to <= text@.len(),
    ensures
        ({
            let field = text@.subrange(from as int, to as int);
            match r {
                Some(v) => spec_valid_u32_text(field) && v == spec_u32_text_value(field),
                None => !spec_valid_u32_text(field),
            }
        }),
{
    let ghost field = text@.subrange(from as int, to as int);
    let mut i = from;
    if to - from > 0 && text[from] == 43 {
        i = from + 1;
    }
    let ghost digits_from = i as int - from;
    if i == to {
        return None;
    }
    let mut acc: u32 = 0;
    while i < to
        invariant
            from <= i <= to,
            digits_from <= i - from,
            forall|k: int| digits_from <= k < i - from ==> 48 <= #[trigger] field[k] <= 57,
            acc == digits_value(field, digits_from, i - from),
        decreases to - i,
    {
        let b = text[i];
        if b < 48 || b > 57 {
            proof {
                assert(field[i - from] == b);
            }
            return None;
        }
        let d = (b - 48) as u32;
        if acc > (u32::MAX - d) / 10 {
            // The remaining digits can only grow the value further, so the
            // whole field is out of range.
            proof {
                assert(acc * 10 + d > u32::MAX) by (nonlinear_arith)
                    requires
                        acc > (u32::MAX - d) / 10,
                        0 <= d <= 9,
                        u32::MAX == 0xFFFF_FFFF,
                ;
                assert(digits_value(field, digits_from, i + 1 - from) == acc * 10 + d);
                lemma_digits_value_grows(field, digits_from, i + 1 - from, field.len() as int);
            }
            return None;
        }
        acc = acc * 10 + d;
        i = i + 1;
    }
    Some(acc)
}

/// A prefix of the digits that is already out of range keeps the whole
/// field out of range: each further byte scales the value tenfold before
/// subtracting at most the digit offset.
proof fn lemma_digits_value_grows(text: Seq<u8>, from: int, mid: int, to: int)
    requires
        0 <= from <= mid <= to <= text.len(),
        digits_value(text, from, mid) > u32::MAX,
    ensures
        digits_value(text, from, to) > u32::MAX,
    decreases to - mid,
{
    if mid < to {
        assert(digits_value(text, from, mid + 1) == digits_value(text, from, mid) * 10 + (text[mid]
            - 48));
        assert(digits_value(text, from, mid + 1) > u32::MAX) by (nonlinear_arith)
            requires
                digits_value(text, from, mid + 1) == digits_value(text, from, mid) * 10 + (
                text[mid] - 48),
                digits_value(text, from, mid) > u32::MAX,
                -48 <= text[mid] - 48,
        ;
        lemma_digits_value_grows(text, from, mid + 1, to);
    }
}

/// The three leading fields of a bed-like line: the chromosome name and the
/// start and end coordinates, tab-separated; anything after the third tab is
/// left to the caller. The line's trailing whitespace does not count.
pub struct BedLine {
    pub chrom: String,
    pub start: u32,
    pub end: u32,
}

/// What parsing a bed-like line yields: its first three tab-separated fields
/// — chromosome, start, end — with trailing whitespace trimmed first, or the
/// first fault found, fields checked left to right.
pub open spec fn spec_parse_bed_line(line: Seq<u8>) -> Result<(Seq<char>, u32, u32), BedParseError> {
    let t = trim_end_ws(line);
    let t1 = find_tab(t, 0);
    if t1 == t.len() {
        Err(BedParseError::MissingStart)
    } else {
        let t2 = find_tab(t, t1 + 1);
        let sf = t.subrange(t1 + 1, t2);
        if !spec_valid_u32_text(sf) {
            Err(BedParseError::InvalidStart)
        } else if t2 == t.len() {
            Err(BedParseError::MissingEnd)
        } else {
            let t3 = find_tab(t, t2 + 1);
            let ef = t.subrange(t2 + 1, t3);
            if !spec_valid_u32_text(ef) {
                Err(BedParseError::InvalidEnd)
            } else {
                let cb = t.subrange(0, t1);
                if !vstd::utf8::valid_utf8(cb) {
                    Err(BedParseError::InvalidChrom)
                } else {
                    Ok(
                        (
                            vstd::utf8::decode_utf8(cb),
                            spec_u32_text_value(sf) as u32,
                            spec_u32_text_value(ef) as u32,
                        ),
                    )
                }
            }
        }
    }
}

proof fn lemma_trim_end_ws(line: Seq<u8>, hi: int)
    requires
        0 <= hi <= line.len(),
        forall|k: int| hi <= k < line.len() ==> is_ascii_ws(#[trigger] line[k]),
        hi > 0 ==> !is_ascii_ws(line[hi - 1]),
    ensures
        trim_end_ws(line) =~= line.subrange(0, hi),
    decreases line.len(),
{
    if hi == line.len() {
        if line.len() > 0 {
            assert(!is_ascii_ws(line[line.len() - 1]));
        }
        assert(line.subrange(0, hi) =~= line);
    } else {
        lemma_trim_end_ws(line.drop_last(), hi);
        assert(line.drop_last().subrange(0, hi) =~= line.subrange(0, hi));
    }
}

proof fn lemma_find_tab_ge(line: Seq<u8>, pos: int)
    requires
        0 <= pos <= line.len(),
    ensures
        pos <= find_tab(line, pos) <= line.len(),
    decreases line.len() - pos,
{
    if pos < line.len() && line[pos] != 9 {
        lemma_find_tab_ge(line, pos + 1);
    }
}

/// Parses the chromosome, start and end of a bed-like line, given as raw
/// bytes.
#[verifier::loop_isolation(false)]
#[verifier::rlimit(100)]
#[verifier::spinoff_prover]
pub fn parse_bed_line(line: &Vec<u8>) -> (r: Result<BedLine, BedParseError>)
    ensures
        match spec_parse_bed_line(line@) {
            Ok((name, s, e)) => r matches Ok(b) && b.chrom@ == name && b.start == s && b.end == e,
            Err(err) => r matches Err(err2) && err2 == err,
        },
{
    let len = line.len();
    let mut hi = len;
    while hi > 0 && (line[hi - 1] == 0x20 || (0x09 <= line[hi - 1] && line[hi - 1] <= 0x0D))
        invariant
            hi <= len,
            forall|k: int| hi <= k < len ==> is_ascii_ws(#[trigger] line@[k]),
        decreases hi,
    {
        hi = hi - 1;
    }
    proof {
        lemma_trim_end_ws(line@, hi as int);
    }
    let ghost t = trim_end_ws(line@);
    let mut t1: usize = 0;
    while t1 < hi && line[t1] != 9
        invariant
            t1 <= hi,
            hi <= len,
            t == line@.subrange(0, hi as int),
            find_tab(t, 0) == find_tab(t, t1 as int),
        decreases hi - t1,
    {
        t1 = t1 + 1;
    }
    proof {
        assert(find_tab(t, 0) == t1);
    }
    if t1 == hi {
        return Err(BedParseError::MissingStart);
    }
    let mut t2: usize = t1 + 1;
    while t2 < hi && line[t2] != 9
        invariant
            t1 + 1 <= t2 <= hi,
            hi <= len,
            t == line@.subrange(0, hi as int),
            find_tab(t, t1 + 1) == find_tab(t, t2 as int),
        decreases hi - t2,
    {
        t2 = t2 + 1;
    }
    proof {
        assert(find_tab(t, t1 + 1) == t2);
        assert(t.subrange(t1 + 1, t2 as int) =~= line@.subrange(t1 + 1, t2 as int));
    }
    let start = match parse_u32_field(line, t1 + 1, t2) {
        Some(v) => v,
        None => {
            return Err(BedParseError::InvalidStart);
        },
    };
    if t2 == hi {
        return Err(BedParseError::MissingEnd);
    }
    let mut t3: usize = t2 + 1;
    while t3 < hi && line[t3] != 9
        invariant
            t2 + 1 <= t3 <= hi,
            hi <= len,
            t == line@.subrange(0, hi as int),
            find_tab(t, t2 + 1) == find_tab(t, t3 as int),
        decreases hi - t3,
    {
        t3 = t3 + 1;
    }
    proof {
        assert(find_tab(t, t2 + 1) == t3);
        assert(t.subrange(t2 + 1, t3 as int) =~= line@.subrange(t2 + 1, t3 as int));
    }
    let end = match parse_u32_field(line, t2 + 1, t3) {
        Some(v) => v,
        None => {
            return Err(BedParseError::InvalidEnd);
        },
    };
    let mut cb: Vec<u8> = Vec::new();
    let mut k: usize = 0;
    while k < t1
        invariant
            k <= t1,
            t1 <= hi <= len,
            cb@ =~= line@.subrange(0, k as int),
        decreases t1 - k,
    {
        cb.push(line[k]);
        proof {
            assert(cb@ =~= line@.subrange(0, k + 1));
        }
        k = k + 1;
    }
    proof {
        assert(cb@ =~= t.subrange(0, t1 as int));
    }
    let chrom = match bytes_to_string(cb) {
        Some(s) => s,
        None => {
            return Err(BedParseError::InvalidChrom);
        },
    };
    Ok(BedLine { chrom, start, end })
}

/// Whether one of the names equals the given one.
pub fn chroms_contains(chroms: &Vec<String>, name: &str) -> (r: bool)
    ensures
        r == exists|i: int| 0 <= i < chroms@.len() && (#[trigger] chroms@[i])@ == name@,
{
    let mut i: usize = 0;
    while i < chroms.len()
        invariant
            i <= chroms@.len(),
            forall|k: int| 0 <= k < i ==> (#[trigger] chroms@[k])@ != name@,
        decreases chroms@.len() - i,
    {
        if str_eq(chroms[i].as_str(), name) {
            return true;
        }
        i = i + 1;
    }
    false
}

/// Whether one input chromosome of the lists, taken in order, comes before
/// position `(s, j)`.
pub open spec fn entry_before(s: int, j: int, si: int, ji: int) -> bool {
    si < s || (si == s && ji < j)
}

/// Whether `out[k]` renders the input chromosome at `(si, ji)`: same name,
/// same length.
pub open spec fn renders(out: Seq<ChromInfo>, k: int, ss: Seq<Vec<ChromInfo>>, si: int, ji: int) -> bool {
    out[k].name@ == ss[si]@[ji].name@ && out[k].length == ss[si]@[ji].length
}

/// Every input chromosome before position `(s, j)` is rendered by some
/// output entry.
pub open spec fn inputs_covered(
    ss: Seq<Vec<ChromInfo>>,
    out: Seq<ChromInfo>,
    s: int,
    j: int,
) -> bool {
    forall|si: int, ji: int|
        #![trigger entry_before(s, j, si, ji)]
        0 <= si < ss.len() && 0 <= ji < ss[si]@.len() && entry_before(s, j, si, ji) ==> exists|
            k: int,
        | 0 <= k < out.len() && renders(out, k, ss, si, ji)
}

/// Every output entry renders some input chromosome.
pub open spec fn outputs_from(ss: Seq<Vec<ChromInfo>>, out: Seq<ChromInfo>) -> bool {
    forall|k: int|
        #![trigger out[k]]
        0 <= k < out.len() ==> exists|si: int, ji: int|
            0 <= si < ss.len() && 0 <= ji < ss[si]@.len() && (#[trigger] ss[si]@[ji]).name@
                == out[k].name@ && ss[si]@[ji].length == out[k].length
}

/// The unified chromosome list of several files: each name that appears in
/// any input, once, in order of first appearance, with its length — or
/// `None` where two inputs disagree about a chromosome's length. Ids are
/// assigned densely in list order.
#[verifier::loop_isolation(false)]
#[verifier::rlimit(100)]
#[verifier::spinoff_prover]
pub fn merged_chrom_sizes(chrom_lists: &Vec<Vec<ChromInfo>>) -> (r: Option<Vec<ChromInfo>>)
    ensures
        r matches Some(v) ==> (forall|k1: int, k2: int|
            0 <= k1 < k2 < v@.len() ==> (#[trigger] v@[k1]).name@ != (#[trigger] v@[k2]).name@),
        r matches Some(v) ==> (forall|k: int|
            0 <= k < v@.len() && k <= u32::MAX ==> (#[trigger] v@[k]).id == k),
        r matches Some(v) ==> inputs_covered(
            chrom_lists@,
            v@,
            chrom_lists@.len() as int,
            0,
        ),
        r matches Some(v) ==> outputs_from(chrom_lists@, v@),
        r is None ==> exists|s1: int, j1: int, s2: int, j2: int|
            0 <= s1 < chrom_lists@.len() && 0 <= j1 < chrom_lists@[s1]@.len() && 0 <= s2
                < chrom_lists@.len() && 0 <= j2 < chrom_lists@[s2]@.len() && (
            #[trigger] chrom_lists@[s1]@[j1]).name@ == (#[trigger] chrom_lists@[s2]@[j2]).name@
                && chrom_lists@[s1]@[j1].length != chrom_lists@[s2]@[j2].length,
{
    let n = chrom_lists.len();
    let mut out: Vec<ChromInfo> = Vec::new();
    let mut s: usize = 0;
    while s < n
        invariant
            s <= n,
            n == chrom_lists@.len(),
            forall|k1: int, k2: int|
                0 <= k1 < k2 < out@.len() ==> (#[trigger] out@[k1]).name@ != (
                #[trigger] out@[k2]).name@,
            forall|k: int|
                0 <= k < out@.len() && k <= u32::MAX ==> (#[trigger] out@[k]).id == k,
            inputs_covered(chrom_lists@, out@, s as int, 0),
            outputs_from(chrom_lists@, out@),
        decreases n - s,
    {
        let m = chrom_lists[s].len();
        let mut j: usize = 0;
        while j < m
            invariant
                j <= m,
                s < n,
                m == chrom_lists@[s as int]@.len(),
                n == chrom_lists@.len(),
                forall|k1: int, k2: int|
                    0 <= k1 < k2 < out@.len() ==> (#[trigger] out@[k1]).name@ != (
                    #[trigger] out@[k2]).name@,
                forall|k: int|
                    0 <= k < out@.len() && k <= u32::MAX ==> (#[trigger] out@[k]).id == k,
                inputs_covered(chrom_lists@, out@, s as int, j as int),
                outputs_from(chrom_lists@, out@),
            decreases m - j,
        {
            let c = &chrom_lists[s][j];
            let ghost pre = out@;
            let mut k: usize = 0;
            let mut found = false;
            while k < out.len() && !found
                invariant
                    k <= out@.len(),
                    out@ == pre,
                    s < n,
                    j < m,
                    m == chrom_lists@[s as int]@.len(),
                    n == chrom_lists@.len(),
                    c == chrom_lists@[s as int]@[j as int],
                    outputs_from(chrom_lists@, out@),
                    !found ==> forall|kk: int|
                        0 <= kk < k ==> (#[trigger] out@[kk]).name@ != c.name@,
                    found ==> k < out@.len() && out@[k as int].name@ == c.name@
                        && out@[k as int].length == c.length,
                decreases out@.len() - k + (if found {
                    0int
                } else {
                    1int
                }),
            {
                if str_eq(out[k].name.as_str(), c.name.as_str()) {
                    if out[k].length != c.length {
                        proof {
                            let (si, ji) = choose|si: int, ji: int|
                                0 <= si < chrom_lists@.len() && 0 <= ji
                                    < chrom_lists@[si]@.len() && (
                                #[trigger] chrom_lists@[si]@[ji]).name@ == out@[k as int].name@
                                    && chrom_lists@[si]@[ji].length == out@[k as int].length;
                            assert((#[trigger] chrom_lists@[si]@[ji]).name@ == chrom_lists@[
                                s as int
                            ]@[j as int].name@ && chrom_lists@[si]@[ji].length != chrom_lists@[
                                s as int
                            ]@[j as int].length);
                        }
                        return None;
                    }
                    found = true;
                } else {
                    k = k + 1;
                }
            }
            if !found {
                let id = out.len() as u32;
                out.push(ChromInfo { name: c.name.clone(), id, length: c.length });
                proof {
                    assert forall|si: int, ji: int|
                        #![trigger entry_before(s as int, j + 1, si, ji)]
                        0 <= si < chrom_lists@.len() && 0 <= ji < chrom_lists@[si]@.len()
                            && entry_before(
                            s as int,
                            j + 1,
                            si,
                            ji,
                        ) implies exists|kk: int|
                        0 <= kk < out@.len() && renders(out@, kk, chrom_lists@, si, ji) by {
                        if entry_before(s as int, j as int, si, ji) {
                            let kk = choose|kk: int|
                                0 <= kk < pre.len() && renders(pre, kk, chrom_lists@, si, ji);
                            assert(out@[kk] == pre[kk]);
                            assert(renders(out@, kk, chrom_lists@, si, ji));
                        } else {
                            assert(renders(out@, out@.len() - 1, chrom_lists@, si, ji));
                        }
                    }
                    assert(inputs_covered(chrom_lists@, out@, s as int, j + 1));
                    assert forall|kk: int| #![trigger out@[kk]] 0 <= kk < out@.len() implies exists|
                        si: int,
                        ji: int,
                    |
                        0 <= si < chrom_lists@.len() && 0 <= ji < chrom_lists@[si]@.len() && (
                        #[trigger] chrom_lists@[si]@[ji]).name@ == out@[kk].name@ && chrom_lists@[
                        si
                    ]@[ji].length == out@[kk].length by {
                        if kk < pre.len() {
                            let (si, ji) = choose|si: int, ji: int|
                                0 <= si < chrom_lists@.len() && 0 <= ji
                                    < chrom_lists@[si]@.len() && (
                                #[trigger] chrom_lists@[si]@[ji]).name@ == pre[kk].name@
                                    && chrom_lists@[si]@[ji].length == pre[kk].length;
                            assert(out@[kk] == pre[kk]);
                        } else {
                            assert(out@[kk].name@ == chrom_lists@[s as int]@[j as int].name@
                                && out@[kk].length == chrom_lists@[s as int]@[j as int].length);
                        }
                    }
                    assert(outputs_from(chrom_lists@, out@));
                }
            } else {
                proof {
                    let kf = choose|kk: int|
                        0 <= kk < out@.len() && out@[kk].name@ == c.name@ && out@[kk].length
                            == c.length;
                    assert forall|si: int, ji: int|
                        #![trigger entry_before(s as int, j + 1, si, ji)]
                        0 <= si < chrom_lists@.len() && 0 <= ji < chrom_lists@[si]@.len()
                            && entry_before(
                            s as int,
                            j + 1,
                            si,
                            ji,
                        ) implies exists|kk: int|
                        0 <= kk < out@.len() && renders(out@, kk, chrom_lists@, si, ji) by {
                        if !entry_before(s as int, j as int, si, ji) {
                            assert(renders(out@, kf, chrom_lists@, si, ji));
                        }
                    }
                    assert(inputs_covered(chrom_lists@, out@, s as int, j + 1));
                }
            }
            j = j + 1;
        }
        proof {
            assert forall|si: int, ji: int|
                #![trigger entry_before(s + 1, 0, si, ji)]
                0 <= si < chrom_lists@.len() && 0 <= ji < chrom_lists@[si]@.len() && entry_before(
                    s + 1,
                    0,
                    si,
                    ji,
                ) implies exists|k: int|
                0 <= k < out@.len() && renders(out@, k, chrom_lists@, si, ji) by {
                let c0 = chrom_lists@[si]@[ji];
                assert(entry_before(s as int, m as int, si, ji));
                assert(inputs_covered(chrom_lists@, out@, s as int, m as int));
                assert(entry_before(s as int, j as int, si, ji) && 0 <= si < chrom_lists@.len()
                    && 0 <= ji < chrom_lists@[si]@.len());
            }
            assert(inputs_covered(chrom_lists@, out@, s + 1, 0));
        }
        s = s + 1;
    }
    proof {
assert forall|si: int, ji: int|
            #![trigger entry_before(chrom_lists@.len() as int, 0, si, ji)]
            0 <= si < chrom_lists@.len() && 0 <= ji < chrom_lists@[si]@.len() && entry_before(
                chrom_lists@.len() as int,
                0,
                si,
                ji,
            ) implies exists|k: int|
            0 <= k < out@.len() && renders(out@, k, chrom_lists@, si, ji) by {
            assert(entry_before(n as int, 0, si, ji));
            assert(inputs_covered(chrom_lists@, out@, n as int, 0));
        }
        assert(inputs_covered(chrom_lists@, out@, chrom_lists@.len() as int, 0));
    }
    Some(out)
}
} // verus!
