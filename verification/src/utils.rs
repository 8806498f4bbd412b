//! Coordinate-sorted interval arithmetic: merging overlapping values,
//! merging many sorted streams, and filling gaps with zeros.

use crate::bbi::Value;
use crate::floatbits::{
    add_f32_bits, add_values, is_zero_f32_bits, is_zero_value, near_f32_bits, values_near,
};
use vstd::prelude::*;

verus! {

/// What `merge_into` returns, case by case, over the endpoint order of the
/// two inputs. Where one input's value compares equal to `0.0` the other
/// input is absorbed unsplit instead of being re-summed, which preserves its
/// exact bit pattern.
pub open spec fn spec_merge_into(one: Value, two: Value) -> (Value, Option<Value>, Option<
    Value,
>, Option<Value>) {
    let sum = add_f32_bits(one.value, two.value);
    if one.start == two.start {
        if one.end == two.end {
            (Value { start: one.start, end: one.end, value: sum }, None, None, None)
        } else if one.end < two.end {
            (
                Value { start: one.start, end: one.end, value: sum },
                None,
                None,
                Some(Value { start: one.end, end: two.end, value: two.value }),
            )
        } else {
            if is_zero_f32_bits(two.value) {
                (one, None, None, None)
            } else {
                (
                    Value { start: two.start, end: two.end, value: sum },
                    Some(Value { start: two.end, end: one.end, value: one.value }),
                    None,
                    None,
                )
            }
        }
    } else if one.start < two.start {
        if one.end == two.end {
            if is_zero_f32_bits(two.value) {
                (Value { start: one.start, end: one.end, value: one.value }, None, None, None)
            } else {
                (
                    Value { start: one.start, end: two.start, value: one.value },
                    Some(Value { start: two.start, end: two.end, value: sum }),
                    None,
                    None,
                )
            }
        } else if one.end < two.end {
            if is_zero_f32_bits(one.value) && is_zero_f32_bits(two.value) {
                (one, None, None, Some(Value { start: one.end, end: two.end, value: 0 }))
            } else if is_zero_f32_bits(one.value) {
                (
                    Value { start: one.start, end: two.start, value: 0 },
                    Some(Value { start: two.start, end: one.end, value: two.value }),
                    None,
                    Some(Value { start: one.end, end: two.end, value: two.value }),
                )
            } else if is_zero_f32_bits(two.value) {
                (one, None, None, Some(Value { start: one.end, end: two.end, value: 0 }))
            } else {
                (
                    Value { start: one.start, end: two.start, value: one.value },
                    Some(Value { start: two.start, end: one.end, value: sum }),
                    None,
                    Some(Value { start: one.end, end: two.end, value: two.value }),
                )
            }
        } else {
            if is_zero_f32_bits(two.value) {
                (one, None, None, None)
            } else {
                (
                    Value { start: one.start, end: two.start, value: one.value },
                    Some(Value { start: two.start, end: two.end, value: sum }),
                    Some(Value { start: two.end, end: one.end, value: one.value }),
                    None,
                )
            }
        }
    } else {
        if one.end == two.end {
            if is_zero_f32_bits(one.value) {
                (two, None, None, None)
            } else {
                (
                    Value { start: two.start, end: one.start, value: two.value },
                    Some(Value { start: one.start, end: one.end, value: sum }),
                    None,
                    None,
                )
            }
        } else if one.end < two.end {
            if is_zero_f32_bits(one.value) {
                (two, None, None, None)
            } else {
                (
                    Value { start: two.start, end: one.start, value: two.value },
                    Some(Value { start: one.start, end: one.end, value: sum }),
                    None,
                    Some(Value { start: one.end, end: two.end, value: two.value }),
                )
            }
        } else {
            if is_zero_f32_bits(one.value) && is_zero_f32_bits(two.value) {
                (Value { start: two.start, end: one.end, value: 0 }, None, None, None)
            } else if is_zero_f32_bits(one.value) {
                (two, Some(Value { start: two.end, end: one.end, value: one.value }), None, None)
            } else if is_zero_f32_bits(two.value) {
                (
                    Value { start: two.start, end: one.start, value: 0 },
                    Some(Value { start: one.start, end: one.end, value: one.value }),
                    None,
                    None,
                )
            } else {
                (
                    Value { start: two.start, end: one.start, value: two.value },
                    Some(Value { start: one.start, end: two.end, value: sum }),
                    Some(Value { start: two.end, end: one.end, value: one.value }),
                    None,
                )
            }
        }
    }
}

/// Merges two overlapping values into non-overlapping pieces.
///
/// Returns:
///  `(val, None, None, overhang or None)` when merging `two` does not break up
///  `one`, and may or may not add an overhang (`one.start == two.start`);
///  `(val, val, val or None, overhang or None)` when merging `two` breaks up
///  `one` (`one.start < two.start` or `one.end > two.end`).
/// The overhang may equal the previous value.
///
/// Together the pieces cover `min(one.start, two.start)..max(one.end,
/// two.end)` contiguously and without overlap, each base keeping the
/// single-precision sum of the values covering it; see
/// `lemma_merge_into_covers`.
pub fn merge_into(one: Value, two: Value) -> (r: (Value, Option<Value>, Option<Value>, Option<
    Value,
>))
    requires
        one.start < one.end,
        two.start < two.end,
        two.start < one.end,
        one.start < two.end,
    ensures
        r == spec_merge_into(one, two),
{
    if one.start == two.start {
        if one.end == two.end {
            (
                Value { start: one.start, end: one.end, value: add_values(one.value, two.value) },
                None,
                None,
                None,
            )
        } else if one.end < two.end {
            (
                Value { start: one.start, end: one.end, value: add_values(one.value, two.value) },
                None,
                None,
                Some(Value { start: one.end, end: two.end, value: two.value }),
            )
        } else {
            if is_zero_value(two.value) {
                (one, None, None, None)
            } else {
                (
                    Value {
                        start: two.start,
                        end: two.end,
                        value: add_values(one.value, two.value),
                    },
                    Some(Value { start: two.end, end: one.end, value: one.value }),
                    None,
                    None,
                )
            }
        }
    } else if one.start < two.start {
        if one.end == two.end {
            if is_zero_value(two.value) {
                (Value { start: one.start, end: one.end, value: one.value }, None, None, None)
            } else {
                (
                    Value { start: one.start, end: two.start, value: one.value },
                    Some(
                        Value {
                            start: two.start,
                            end: two.end,
                            value: add_values(one.value, two.value),
                        },
                    ),
                    None,
                    None,
                )
            }
        } else if one.end < two.end {
            if is_zero_value(one.value) && is_zero_value(two.value) {
                let end = one.end;
                (one, None, None, Some(Value { start: end, end: two.end, value: 0 }))
            } else if is_zero_value(one.value) {
                (
                    Value { start: one.start, end: two.start, value: 0 },
                    Some(Value { start: two.start, end: one.end, value: two.value }),
                    None,
                    Some(Value { start: one.end, end: two.end, value: two.value }),
                )
            } else if is_zero_value(two.value) {
                let end = one.end;
                (one, None, None, Some(Value { start: end, end: two.end, value: 0 }))
            } else {
                (
                    Value { start: one.start, end: two.start, value: one.value },
                    Some(
                        Value {
                            start: two.start,
                            end: one.end,
                            value: add_values(one.value, two.value),
                        },
                    ),
                    None,
                    Some(Value { start: one.end, end: two.end, value: two.value }),
                )
            }
        } else {
            if is_zero_value(two.value) {
                (one, None, None, None)
            } else {
                (
                    Value { start: one.start, end: two.start, value: one.value },
                    Some(
                        Value {
                            start: two.start,
                            end: two.end,
                            value: add_values(one.value, two.value),
                        },
                    ),
                    Some(Value { start: two.end, end: one.end, value: one.value }),
                    None,
                )
            }
        }
    } else {
        if one.end == two.end {
            if is_zero_value(one.value) {
                (two, None, None, None)
            } else {
                (
                    Value { start: two.start, end: one.start, value: two.value },
                    Some(
                        Value {
                            start: one.start,
                            end: one.end,
                            value: add_values(one.value, two.value),
                        },
                    ),
                    None,
                    None,
                )
            }
        } else if one.end < two.end {
            if is_zero_value(one.value) {
                (two, None, None, None)
            } else {
                (
                    Value { start: two.start, end: one.start, value: two.value },
                    Some(
                        Value {
                            start: one.start,
                            end: one.end,
                            value: add_values(one.value, two.value),
                        },
                    ),
                    None,
                    Some(Value { start: one.end, end: two.end, value: two.value }),
                )
            }
        } else {
            if is_zero_value(one.value) && is_zero_value(two.value) {
                (Value { start: two.start, end: one.end, value: 0 }, None, None, None)
            } else if is_zero_value(one.value) {
                let start = two.end;
                (
                    two,
                    Some(Value { start, end: one.end, value: one.value }),
                    None,
                    None,
                )
            } else if is_zero_value(two.value) {
                (
                    Value { start: two.start, end: one.start, value: 0 },
                    Some(Value { start: one.start, end: one.end, value: one.value }),
                    None,
                    None,
                )
            } else {
                (
                    Value { start: two.start, end: one.start, value: two.value },
                    Some(
                        Value {
                            start: one.start,
                            end: two.end,
                            value: add_values(one.value, two.value),
                        },
                    ),
                    Some(Value { start: two.end, end: one.end, value: one.value }),
                    None,
                )
            }
        }
    }
}

/// The zero or one values of an optional piece, as a sequence.
pub open spec fn opt_seq(v: Option<Value>) -> Seq<Value> {
    match v {
        Some(x) => seq![x],
        None => Seq::empty(),
    }
}

/// The pieces of a `merge_into` result, in coordinate order.
pub open spec fn merge_out_seq(r: (Value, Option<Value>, Option<Value>, Option<Value>)) -> Seq<
    Value,
> {
    seq![r.0] + opt_seq(r.1) + opt_seq(r.2) + opt_seq(r.3)
}

/// Whether the value `v` covers the base `pos`.
pub open spec fn covers(v: Value, pos: int) -> bool {
    v.start <= pos < v.end
}

/// Whether `v` is the right bit pattern for base `pos` of the merge of `one`
/// and `two`: the single-precision sum of the values covering `pos`, where a
/// piece absorbed beside a zero-valued input keeps its exact input pattern
/// (equal to the sum as a number, though possibly another encoding of it).
pub open spec fn merged_base_ok(one: Value, two: Value, pos: int, v: u32) -> bool {
    if covers(one, pos) && covers(two, pos) {
        ||| v == add_f32_bits(one.value, two.value)
        ||| is_zero_f32_bits(two.value) && v == one.value
        ||| is_zero_f32_bits(one.value) && v == two.value
        ||| is_zero_f32_bits(one.value) && is_zero_f32_bits(two.value) && is_zero_f32_bits(v)
    } else if covers(one, pos) {
        v == one.value || (is_zero_f32_bits(one.value) && is_zero_f32_bits(v))
    } else if covers(two, pos) {
        v == two.value || (is_zero_f32_bits(two.value) && is_zero_f32_bits(v))
    } else {
        true
    }
}

/// Law: the pieces `merge_into` returns cover exactly
/// `min(one.start, two.start)..max(one.end, two.end)`, contiguously, without
/// overlap and without gaps, and every piece carries for each base it covers
/// the single-precision sum of the input values covering that base (with a
/// zero-valued input absorbed rather than re-summed).
pub proof fn lemma_merge_into_covers(one: Value, two: Value)
    requires
        one.start < one.end,
        two.start < two.end,
        two.start < one.end,
        one.start < two.end,
    ensures
        ({
            let s = merge_out_seq(spec_merge_into(one, two));
            &&& s.len() >= 1
            &&& s[0].start == if one.start <= two.start {
                one.start as int
            } else {
                two.start as int
            }
            &&& s[s.len() - 1].end == if one.end >= two.end {
                one.end as int
            } else {
                two.end as int
            }
            &&& forall|i: int| 0 <= i < s.len() ==> s[i].start < s[i].end
            &&& forall|i: int| 0 <= i < s.len() - 1 ==> s[i].end == s[i + 1].start
            &&& forall|i: int, pos: int|
                0 <= i < s.len() && covers(s[i], pos) ==> merged_base_ok(one, two, pos, s[i].value)
        }),
{
    let r = spec_merge_into(one, two);
    let s = merge_out_seq(r);
    assert forall|i: int, pos: int|
        0 <= i < s.len() && covers(s[i], pos) implies merged_base_ok(one, two, pos, s[i].value) by {
        assert(merged_base_ok(one, two, pos, s[i].value));
    }
}

/// What filling gaps yields: each item of `items` in order, an explicit
/// zero-valued filler before any value that starts past the running end, an
/// error item passed through unchanged, and a final filler up to
/// `expected_end` where one is asked for and not yet reached.
pub open spec fn spec_fill<E>(
    items: Seq<Result<Value, E>>,
    last_end: u32,
    expected_end: Option<u32>,
) -> Seq<Result<Value, E>>
    decreases items.len(),
{
    if items.len() == 0 {
        match expected_end {
            Some(ee) => if last_end < ee {
                seq![Ok(Value { start: last_end, end: ee, value: 0 })]
            } else {
                Seq::empty()
            },
            None => Seq::empty(),
        }
    } else {
        match items[0] {
            Ok(next) => if next.start > last_end {
                seq![Ok(Value { start: last_end, end: next.start, value: 0 }), Ok(next)]
                    + spec_fill(items.subrange(1, items.len() as int), next.end, expected_end)
            } else {
                seq![Ok(next)] + spec_fill(
                    items.subrange(1, items.len() as int),
                    next.end,
                    expected_end,
                )
            },
            Err(e) => seq![Err(e)] + spec_fill(
                items.subrange(1, items.len() as int),
                last_end,
                expected_end,
            ),
        }
    }
}

/// The worker behind `fill` and `fill_start_to_end`.
fn fill_values<E>(iter: Vec<Result<Value, E>>, start: u32, expected_end: Option<u32>) -> (r: Vec<
    Result<Value, E>,
>)
    ensures
        r@ == spec_fill(iter@, start, expected_end),
{
    let ghost orig = iter@;
    let mut iter = iter;
    let mut out: Vec<Result<Value, E>> = Vec::new();
    let mut last_end: u32 = start;
    while iter.len() > 0
        invariant
            spec_fill(orig, start, expected_end) == out@ + spec_fill(
                iter@,
                last_end,
                expected_end,
            ),
        decreases iter@.len(),
    {
        let ghost pre = iter@;
        let item = iter.remove(0);
        proof {
            assert(iter@ =~= pre.subrange(1, pre.len() as int));
        }
        match item {
            Ok(next) => {
                if next.start > last_end {
                    out.push(Ok(Value { start: last_end, end: next.start, value: 0 }));
                    out.push(Ok(next));
                } else {
                    out.push(Ok(next));
                }
                last_end = next.end;
            },
            Err(e) => {
                out.push(Err(e));
            },
        }
    }
    match expected_end {
        Some(ee) => {
            if last_end < ee {
                let ghost pre_out = out@;
                out.push(Ok(Value { start: last_end, end: ee, value: 0 }));
                proof {
                    assert(spec_fill(iter@, last_end, expected_end) =~= seq![
                        Ok::<Value, E>(Value { start: last_end, end: ee, value: 0 }),
                    ]);
                    assert(out@ =~= pre_out + spec_fill(iter@, last_end, expected_end));
                }
            } else {
                proof {
                    assert(spec_fill(iter@, last_end, expected_end) =~= Seq::<
                        Result<Value, E>,
                    >::empty());
                    assert(out@ =~= out@ + spec_fill(iter@, last_end, expected_end));
                }
            }
        },
        None => {
            proof {
                assert(spec_fill(iter@, last_end, expected_end) =~= Seq::<
                    Result<Value, E>,
                >::empty());
                assert(out@ =~= out@ + spec_fill(iter@, last_end, expected_end));
            }
        },
    }
    out
}

/// Whether the values are coordinate-sorted without overlap, each one valid.
pub open spec fn sorted_disjoint(s: Seq<Value>) -> bool {
    &&& forall|i: int| 0 <= i < s.len() ==> (#[trigger] s[i]).start < s[i].end
    &&& forall|i: int| 0 <= i < s.len() - 1 ==> (#[trigger] s[i]).end <= s[i + 1].start
}

/// Whether some input value of one of the streams covers the base `pos`.
pub open spec fn covered_by_inputs(ss: Seq<Vec<Value>>, pos: int) -> bool {
    exists|s: int, j: int|
        0 <= s < ss.len() && 0 <= j < ss[s]@.len() && (#[trigger] ss[s]@[j]).start <= pos
            < ss[s]@[j].end
}

/// Whether one of the values covers the base `p`.
pub open spec fn covered_by_values(out: Seq<Value>, p: int) -> bool {
    exists|i: int| 0 <= i < out.len() && (#[trigger] out[i]).start <= p < out[i].end
}

/// Whether cell `k` sits in a stretch led by a zero pattern whose later
/// members all lie within EPSILON of it — the one shape of cell the encoder
/// may leave uncovered, by joining it to a suppressed zero run.
pub open spec fn near_zero_stretch(data: Seq<u32>, k: int) -> bool {
    exists|k0: int|
        0 <= k0 <= k && is_zero_f32_bits(#[trigger] data[k0]) && (forall|k2: int|
            k0 < k2 <= k ==> near_f32_bits(data[k0], #[trigger] data[k2]))
}

/// Run-length-encodes one window of the per-base accumulator, starting at
/// base `window_start`, into zero-suppressed values: consecutive cells within
/// EPSILON of a run's first cell join that run, and runs whose value compares
/// equal to `0.0` are dropped.
fn rle_encode(data: &Vec<u32>, window_start: u32) -> (r: Vec<Value>)
    requires
        window_start as int + data@.len() <= u32::MAX as int,
    ensures
        forall|i: int|
            0 <= i < r@.len() ==> (#[trigger] r@[i]).start < r@[i].end && window_start
                <= r@[i].start && r@[i].end <= window_start + data@.len(),
        forall|i: int| 0 <= i < r@.len() - 1 ==> (#[trigger] r@[i]).end <= r@[i + 1].start,
        forall|i: int|
            0 <= i < r@.len() ==> !is_zero_f32_bits((#[trigger] r@[i]).value) && r@[i].value
                == data@[r@[i].start - window_start],
        forall|k: int|
            0 <= k < data@.len() && !covered_by_values(r@, window_start + k)
                ==> near_zero_stretch(data@, k),
{
    let mut out: Vec<Value> = Vec::new();
    let mut run_start: u32 = window_start;
    let mut run_end: u32 = window_start;
    let mut run_value: u32 = 0;
    let mut started = false;
    let mut idx: usize = 0;
    while idx < data.len()
        invariant
            window_start as int + data@.len() <= u32::MAX as int,
            idx <= data@.len(),
            started ==> window_start <= run_start < run_end && run_end == window_start + idx
                && run_value == data@[run_start - window_start],
            !started ==> idx == 0 && out@.len() == 0,
            forall|i: int|
                0 <= i < out@.len() ==> (#[trigger] out@[i]).start < out@[i].end && window_start
                    <= out@[i].start && out@[i].end <= window_start + idx,
            forall|i: int| 0 <= i < out@.len() - 1 ==> (#[trigger] out@[i]).end <= out@[i + 1].start,
            forall|i: int|
                0 <= i < out@.len() ==> !is_zero_f32_bits((#[trigger] out@[i]).value) && out@[i].value
                    == data@[out@[i].start - window_start],
            started && out@.len() > 0 ==> out@[out@.len() - 1].end <= run_start,
            started ==> forall|k2: int|
                run_start - window_start < k2 < idx ==> near_f32_bits(
                    run_value,
                    #[trigger] data@[k2],
                ),
            started ==> forall|k: int|
                0 <= k < run_start - window_start && !covered_by_values(out@, window_start + k)
                    ==> near_zero_stretch(data@, k),
        decreases data@.len() - idx,
    {
        let cell = data[idx];
        if !started {
            run_start = window_start + (idx as u32);
            run_end = run_start + 1;
            run_value = cell;
            started = true;
        } else {
            if values_near(run_value, cell) {
                run_end = run_end + 1;
            } else {
                let ghost out0 = out@;
                let ghost rs0 = run_start;
                if !is_zero_value(run_value) {
                    out.push(Value { start: run_start, end: run_end, value: run_value });
                    proof {
                        assert forall|k: int|
                            0 <= k < idx && !covered_by_values(out@, window_start + k)
                                implies near_zero_stretch(data@, k) by {
                            if k < rs0 - window_start {
                                assert(!covered_by_values(out0, window_start + k)) by {
                                    if covered_by_values(out0, window_start + k) {
                                        let i = choose|i: int|
                                            0 <= i < out0.len() && (#[trigger] out0[i]).start
                                                <= window_start + k < out0[i].end;
                                        assert(out@[i] == out0[i]);
                                    }
                                }
                            } else {
                                assert(out@[out@.len() - 1].start <= window_start + k < out@[
                                    out@.len() - 1
                                ].end);
                            }
                        }
                    }
                } else {
                    proof {
                        assert forall|k: int|
                            0 <= k < idx && !covered_by_values(out@, window_start + k)
                                implies near_zero_stretch(data@, k) by {
                            if k >= rs0 - window_start {
                                let k0 = rs0 - window_start;
                                assert(is_zero_f32_bits(data@[k0]));
                                assert(forall|k2: int|
                                    k0 < k2 <= k ==> near_f32_bits(
                                        data@[k0],
                                        #[trigger] data@[k2],
                                    ));
                            }
                        }
                    }
                }
                run_start = window_start + (idx as u32);
                run_end = run_start + 1;
                run_value = cell;
            }
        }
        idx = idx + 1;
    }
    if started {
        let ghost out0 = out@;
        let ghost rs0 = run_start;
        if !is_zero_value(run_value) {
            out.push(Value { start: run_start, end: run_end, value: run_value });
            proof {
                assert forall|k: int|
                    0 <= k < data@.len() && !covered_by_values(out@, window_start + k)
                        implies near_zero_stretch(data@, k) by {
                    if k < rs0 - window_start {
                        assert(!covered_by_values(out0, window_start + k)) by {
                            if covered_by_values(out0, window_start + k) {
                                let i = choose|i: int|
                                    0 <= i < out0.len() && (#[trigger] out0[i]).start
                                        <= window_start + k < out0[i].end;
                                assert(out@[i] == out0[i]);
                            }
                        }
                    } else {
                        assert(out@[out@.len() - 1].start <= window_start + k < out@[out@.len()
                            - 1].end);
                    }
                }
            }
        } else {
            proof {
                assert forall|k: int|
                    0 <= k < data@.len() && !covered_by_values(out@, window_start + k)
                        implies near_zero_stretch(data@, k) by {
                    if k >= rs0 - window_start {
                        let k0 = rs0 - window_start;
                        assert(is_zero_f32_bits(data@[k0]));
                        assert(forall|k2: int|
                            k0 < k2 <= k ==> near_f32_bits(data@[k0], #[trigger] data@[k2]));
                    }
                }
            }
        }
    }
    out
}

/// Inserts the carried-over value into the window's encoded list. The
/// carried value ends at or before the window begins, and every encoded
/// entry begins at or after the window does, so the ordered insert always
/// settles at the front and never has to split an entry against
/// `merge_into`.
#[verifier::loop_isolation(false)]
fn insert_into_queue(queue: &mut Vec<Value>, next_val: Value)
    requires
        sorted_disjoint(old(queue)@),
        next_val.start < next_val.end,
        forall|k: int| 0 <= k < old(queue)@.len() ==> next_val.end <= (#[trigger] old(queue)@[k]).start,
    ensures
        final(queue)@ == seq![next_val] + old(queue)@,
{
    if queue.is_empty() {
        queue.push(next_val);
    } else {
        queue.insert(0, next_val);
    }
    proof {
        assert(queue@ =~= seq![next_val] + old(queue)@);
    }
}

/// The value of the input item among the first `upto` of the stream that
/// covers base `p`. A coordinate-sorted, non-overlapping stream has at most
/// one.
pub open spec fn covering_value_before(sec: Seq<Value>, p: int, upto: int) -> Option<u32>
    decreases upto,
{
    if upto <= 0 {
        None
    } else if sec[upto - 1].start <= p < sec[upto - 1].end {
        Some(sec[upto - 1].value)
    } else {
        covering_value_before(sec, p, upto - 1)
    }
}

/// The value of the stream's input item covering base `p`, if any.
pub open spec fn covering_value(sec: Seq<Value>, p: int) -> Option<u32> {
    covering_value_before(sec, p, sec.len() as int)
}

/// The accumulated per-base sum of the first `s` streams at base `p`: the
/// IEEE-754 single-precision sum of their values there, added in stream
/// order starting from the zero pattern — exactly the adds the windowed
/// accumulator performs on the cell for `p`.
#[verifier::opaque]
pub open spec fn base_sum(ss: Seq<Vec<Value>>, p: int, s: int) -> u32
    decreases s,
{
    if s <= 0 {
        0
    } else {
        let prior = base_sum(ss, p, s - 1);
        match covering_value(ss[s - 1]@, p) {
            Some(v) => add_f32_bits(prior, v),
            None => prior,
        }
    }
}

/// In a sorted, non-overlapping stream, earlier items end before later ones
/// begin.
proof fn lemma_sorted_apart(sec: Seq<Value>, i: int, j: int)
    requires
        sorted_disjoint(sec),
        0 <= i < j < sec.len(),
    ensures
        sec[i].end <= sec[j].start,
    decreases j - i,
{
    if i + 1 < j {
        lemma_sorted_apart(sec, i + 1, j);
    }
}

/// Counting further items changes nothing when none of them covers the base.
proof fn lemma_covering_before_stable(sec: Seq<Value>, p: int, lo: int, hi: int)
    requires
        0 <= lo <= hi <= sec.len(),
        forall|j: int| lo <= j < hi ==> !((#[trigger] sec[j]).start <= p < sec[j].end),
    ensures
        covering_value_before(sec, p, hi) == covering_value_before(sec, p, lo),
    decreases hi - lo,
{
    if lo < hi {
        lemma_covering_before_stable(sec, p, lo, hi - 1);
    }
}

/// No item among the first `upto` covers the base: there is nothing to find.
proof fn lemma_covering_before_none(sec: Seq<Value>, p: int, upto: int)
    requires
        0 <= upto <= sec.len(),
        forall|j: int| 0 <= j < upto ==> !((#[trigger] sec[j]).start <= p < sec[j].end),
    ensures
        covering_value_before(sec, p, upto) is None,
    decreases upto,
{
    if upto > 0 {
        lemma_covering_before_none(sec, p, upto - 1);
    }
}

/// The covering item found among the first `upto` items is the one at `j`.
proof fn lemma_covering_before_at(sec: Seq<Value>, p: int, upto: int, j: int)
    requires
        sorted_disjoint(sec),
        0 <= j < upto <= sec.len(),
        sec[j].start <= p < sec[j].end,
    ensures
        covering_value_before(sec, p, upto) == Some(sec[j].value),
    decreases upto,
{
    if j == upto - 1 {
    } else {
        assert(!(sec[upto - 1].start <= p < sec[upto - 1].end)) by {
            lemma_sorted_apart(sec, j, upto - 1);
        }
        lemma_covering_before_at(sec, p, upto - 1, j);
    }
}

/// The per-section item counts the accumulated sum folds over.
#[verifier::opaque]
pub open spec fn acc_sum(ss: Seq<Vec<Value>>, uptos: Seq<int>, p: int, t: int) -> u32
    decreases t,
{
    if t <= 0 {
        0
    } else {
        let prior = acc_sum(ss, uptos, p, t - 1);
        match covering_value_before(ss[t - 1]@, p, uptos[t - 1]) {
            Some(v) => add_f32_bits(prior, v),
            None => prior,
        }
    }
}

/// Equal per-section counts give equal accumulated sums.
proof fn lemma_acc_sum_congruent(ss: Seq<Vec<Value>>, a: Seq<int>, b: Seq<int>, p: int, t: int)
    requires
        forall|u: int| 0 <= u < t ==> a[u] == b[u],
    ensures
        acc_sum(ss, a, p, t) == acc_sum(ss, b, p, t),
    decreases t,
{
    reveal(acc_sum);
    if t > 0 {
        lemma_acc_sum_congruent(ss, a, b, p, t - 1);
    }
}

/// With every stream counted in full, the accumulated sum is the per-base
/// sum.
proof fn lemma_acc_sum_full(ss: Seq<Vec<Value>>, uptos: Seq<int>, p: int, t: int)
    requires
        forall|u: int| 0 <= u < t ==> uptos[u] == (#[trigger] ss[u])@.len(),
        t <= ss.len(),
    ensures
        acc_sum(ss, uptos, p, t) == base_sum(ss, p, t),
    decreases t,
{
    reveal(acc_sum);
    reveal(base_sum);
    if t > 0 {
        lemma_acc_sum_full(ss, uptos, p, t - 1);
    }
}

/// The window width of the merging accumulator, in bases.
pub const MERGE_WINDOW: usize = 50_000;

/// The largest end coordinate the merge engine accepts: the windowed walk
/// advances in `MERGE_WINDOW` steps and may step past the last value by up to
/// two windows before it notices that every stream is exhausted.
pub const MERGE_END_LIMIT: u32 = 0xFFFF_FFFF - 100_000;

/// How many leading items of a stream the accumulator has fully applied:
/// everything pulled, less a stashed item not yet consumed.
pub open spec fn done_count(pos: int, st: Option<Value>) -> int {
    pos - if st is Some {
        1int
    } else {
        0int
    }
}

/// The per-section applied counts while the window walk stands at section
/// `s`: sections before it are counted in full pull order, the rest up to
/// their stashed item.
pub open spec fn uptos_at(posv: Seq<usize>, stashv: Seq<Option<Value>>, s: int) -> Seq<int> {
    Seq::new(posv.len(), |t: int| if t < s {
        posv[t] as int
    } else {
        done_count(posv[t] as int, stashv[t])
    })
}

/// Streams whose counted items all miss the base contribute nothing.
proof fn lemma_acc_sum_zero(ss: Seq<Vec<Value>>, uptos: Seq<int>, p: int, t: int)
    requires
        forall|u: int| 0 <= u < t ==> covering_value_before((#[trigger] ss[u])@, p, uptos[u]) is None,
    ensures
        acc_sum(ss, uptos, p, t) == 0,
    decreases t,
{
    reveal(acc_sum);
    if t > 0 {
        lemma_acc_sum_zero(ss, uptos, p, t - 1);
    }
}

/// Counts that find the same covering values give the same accumulated sum.
proof fn lemma_acc_sum_same_covering(
    ss: Seq<Vec<Value>>,
    a: Seq<int>,
    b: Seq<int>,
    p: int,
    t: int,
)
    requires
        forall|u: int|
            0 <= u < t ==> covering_value_before((#[trigger] ss[u])@, p, a[u])
                == covering_value_before(ss[u]@, p, b[u]),
    ensures
        acc_sum(ss, a, p, t) == acc_sum(ss, b, p, t),
    decreases t,
{
    reveal(acc_sum);
    if t > 0 {
        lemma_acc_sum_same_covering(ss, a, b, p, t - 1);
    }
}

/// Applying one more covering item of stream `sdx` adds its value on top of
/// the accumulated sum, provided no later stream has contributed yet.
proof fn lemma_acc_sum_one_more(
    ss: Seq<Vec<Value>>,
    a: Seq<int>,
    b: Seq<int>,
    p: int,
    t: int,
    sdx: int,
    v: u32,
)
    requires
        0 <= sdx < t,
        forall|u: int| 0 <= u < t && u != sdx ==> a[u] == b[u],
        covering_value_before(ss[sdx]@, p, a[sdx]) == Some(v),
        covering_value_before(ss[sdx]@, p, b[sdx]) is None,
        forall|u: int|
            sdx < u < t ==> covering_value_before((#[trigger] ss[u])@, p, a[u]) is None,
    ensures
        acc_sum(ss, a, p, t) == add_f32_bits(acc_sum(ss, b, p, t), v),
    decreases t,
{
    reveal(acc_sum);
    if t - 1 == sdx {
        lemma_acc_sum_same_covering(ss, a, b, p, t - 1);
    } else {
        lemma_acc_sum_one_more(ss, a, b, p, t - 1, sdx, v);
    }
}

/// Counts that already cover every item reaching the base give the full
/// per-base sum.
proof fn lemma_acc_sum_is_base(ss: Seq<Vec<Value>>, uptos: Seq<int>, p: int, t: int)
    requires
        forall|u: int|
            0 <= u < t ==> covering_value_before((#[trigger] ss[u])@, p, uptos[u])
                == covering_value(ss[u]@, p),
    ensures
        acc_sum(ss, uptos, p, t) == base_sum(ss, p, t),
    decreases t,
{
    reveal(acc_sum);
    reveal(base_sum);
    if t > 0 {
        lemma_acc_sum_is_base(ss, uptos, p, t - 1);
    }
}

/// Adds the value into every accumulator cell it covers within the window:
/// each such cell moves from the sum that excludes this item to the sum that
/// includes it, and no other cell changes.
#[verifier::loop_isolation(false)]
#[verifier::rlimit(100)]
#[verifier::spinoff_prover]
fn apply_cells(
    data: &mut Vec<u32>,
    v: Value,
    current_start: u32,
    data_start: usize,
    data_end: usize,
    Ghost(ss): Ghost<Seq<Vec<Value>>>,
    Ghost(au): Ghost<Seq<int>>,
    Ghost(bu): Ghost<Seq<int>>,
    Ghost(sdx): Ghost<int>,
)
    requires
        old(data)@.len() == MERGE_WINDOW,
        data_start <= data_end <= MERGE_WINDOW,
        current_start as int + MERGE_WINDOW <= u32::MAX as int + 1,
        0 <= sdx < ss.len(),
        sorted_disjoint(ss[sdx]@),
        au.len() == ss.len(),
        bu.len() == ss.len(),
        forall|u: int| 0 <= u < ss.len() && u != sdx ==> #[trigger] au[u] == bu[u],
        forall|u: int| 0 <= u < ss.len() ==> 0 <= #[trigger] au[u] <= ss[u]@.len(),
        1 <= au[sdx],
        bu[sdx] == au[sdx] - 1,
        ss[sdx]@[au[sdx] - 1] == v,
        v.start <= current_start as int + data_start,
        current_start as int + data_end <= v.end,
        forall|u: int, j: int|
            sdx < u < ss.len() && 0 <= j < au[u] ==> (#[trigger] ss[u]@[j]).end
                <= current_start as int,
        forall|kk: int|
            0 <= kk < old(data)@.len() ==> #[trigger] old(data)@[kk] == acc_sum(
                ss,
                bu,
                current_start + kk,
                ss.len() as int,
            ),
    ensures
        final(data)@.len() == MERGE_WINDOW,
        forall|kk: int|
            0 <= kk < final(data)@.len() && !(data_start <= kk < data_end)
                ==> #[trigger] final(data)@[kk] == old(data)@[kk],
        forall|kk: int|
            data_start <= kk < data_end ==> #[trigger] final(data)@[kk] == acc_sum(
                ss,
                au,
                current_start + kk,
                ss.len() as int,
            ),
{
    let ghost cs = current_start as int;
    let ghost n = ss.len() as int;
    let mut k = data_start;
    while k < data_end
        invariant
            data@.len() == MERGE_WINDOW,
            data_start <= k <= data_end,
            forall|kk: int|
                0 <= kk < data@.len() && !(data_start <= kk < k) ==> #[trigger] data@[kk] == old(
                    data,
                )@[kk],
            forall|kk: int|
                data_start <= kk < k ==> #[trigger] data@[kk] == acc_sum(ss, au, cs + kk, n),
        decreases data_end - k,
    {
        let cell = data[k];
        data[k] = add_values(cell, v.value);
        proof {
            let p = cs + k;
            assert(v.start <= p < v.end);
            assert(covering_value_before(ss[sdx]@, p, au[sdx]) == Some(v.value));
            assert(covering_value_before(ss[sdx]@, p, bu[sdx]) is None) by {
                assert forall|j: int| 0 <= j < au[sdx] - 1 implies !((#[trigger] ss[sdx]@[j]).start
                    <= p < ss[sdx]@[j].end) by {
                    lemma_sorted_apart(ss[sdx]@, j, au[sdx] - 1);
                }
                lemma_covering_before_none(ss[sdx]@, p, au[sdx] - 1);
            }
            assert forall|u: int| sdx < u < n implies covering_value_before(
                (#[trigger] ss[u])@,
                p,
                au[u],
            ) is None by {
                lemma_covering_before_none(ss[u]@, p, au[u]);
            }
            lemma_acc_sum_one_more(ss, au, bu, p, n, sdx, v.value);
            assert(cell == acc_sum(ss, bu, p, n));
        }
        k = k + 1;
    }
}

/// Applies one pulled value to the window: adds it into the cells it covers,
/// and stashes it back where it begins beyond the window or reaches the
/// window's end. Tells whether the stream is done for this window.
#[verifier::loop_isolation(false)]
#[verifier::rlimit(100)]
#[verifier::spinoff_prover]
fn pull_one(
    sections: &Vec<Vec<Value>>,
    s: usize,
    v: Value,
    pos: &Vec<usize>,
    stash: &mut Vec<Option<Value>>,
    data: &mut Vec<u32>,
    current_start: u32,
) -> (done: bool)
    requires
        forall|t: int| 0 <= t < sections@.len() ==> sorted_disjoint((#[trigger] sections@[t])@),
        pos@.len() == sections@.len(),
        old(stash)@.len() == sections@.len(),
        old(data)@.len() == MERGE_WINDOW,
        current_start as int + MERGE_WINDOW <= u32::MAX as int + 1,
        (s as int) < sections@.len(),
        forall|t: int| 0 <= t < sections@.len() ==> #[trigger] pos@[t] <= sections@[t]@.len(),
        forall|t: int|
            0 <= t < sections@.len() && old(stash)@[t] is Some ==> 1 <= #[trigger] pos@[t],
        old(stash)@[s as int] is None,
        1 <= pos@[s as int],
        v == sections@[s as int]@[pos@[s as int] - 1],
        v.start < v.end,
        v.end >= current_start,
        forall|t: int, j: int|
            (s as int) < t < sections@.len() && 0 <= j < done_count(
                pos@[t] as int,
                old(stash)@[t],
            ) ==> (#[trigger] sections@[t]@[j]).end <= current_start as int,
        forall|k: int|
            0 <= k < old(data)@.len() ==> #[trigger] old(data)@[k] == acc_sum(
                sections@,
                uptos_at(pos@, old(stash)@, s as int).update(s as int, pos@[s as int] - 1),
                current_start + k,
                sections@.len() as int,
            ),
    ensures
        final(stash)@.len() == sections@.len(),
        final(data)@.len() == MERGE_WINDOW,
        forall|t: int|
            0 <= t < sections@.len() && t != s ==> #[trigger] final(stash)@[t] == old(stash)@[t],
        !done ==> final(stash)@[s as int] is None && v.end < current_start as int + MERGE_WINDOW
            && (forall|k: int|
            0 <= k < final(data)@.len() ==> #[trigger] final(data)@[k] == acc_sum(
                sections@,
                uptos_at(pos@, final(stash)@, s as int),
                current_start + k,
                sections@.len() as int,
            )),
        done ==> final(stash)@[s as int] == Some(v) && v.end >= current_start as int + MERGE_WINDOW
            && (forall|k: int|
            0 <= k < final(data)@.len() ==> #[trigger] final(data)@[k] == acc_sum(
                sections@,
                uptos_at(pos@, final(stash)@, s + 1),
                current_start + k,
                sections@.len() as int,
            )) && (forall|j: int|
            pos@[s as int] <= j < sections@[s as int]@.len() ==> (
            #[trigger] sections@[s as int]@[j]).start >= current_start as int + MERGE_WINDOW),
{
    let ghost ss = sections@;
    let ghost cs = current_start as int;
    let ghost n = sections@.len();
    let ghost bu0 = uptos_at(pos@, stash@, s as int).update(s as int, pos@[s as int] - 1);
    let mut done = false;
            let clip = if current_start > v.start {
                current_start
            } else {
                v.start
            };
            let data_start_rel = clip - current_start;
            if data_start_rel >= MERGE_WINDOW as u32 {
                stash[s] = Some(v);
                done = true;
                proof {
                    // The stashed value begins past the window, so
                    // counting or not counting it is the same.
                    let au = uptos_at(pos@, stash@, s + 1);
                    let bu = uptos_at(pos@, stash@, s as int);
                    assert(bu =~= bu0);
                    assert forall|k: int| 0 <= k < data@.len() implies #[trigger] data@[k]
                        == acc_sum(ss, au, cs + k, n as int) by {
                        assert(data@[k] == acc_sum(ss, bu, cs + k, n as int));
                        assert(covering_value_before(
                            ss[s as int]@,
                            cs + k,
                            au[s as int],
                        ) == covering_value_before(ss[s as int]@, cs + k, bu[s as int]))
                            by {
                            assert(!(v.start <= cs + k < v.end));
                        }
                        lemma_acc_sum_same_covering(ss, au, bu, cs + k, n as int);
                    }
                    assert forall|j: int|
                        pos@[s as int] <= j < sections@[s as int]@.len() implies (
                    #[trigger] sections@[s as int]@[j]).start >= cs + MERGE_WINDOW by {
                        lemma_sorted_apart(
                            sections@[s as int]@,
                            pos@[s as int] - 1,
                            j,
                        );
                    }
                }
            } else {
                let data_start = data_start_rel as usize;
                let ve_rel = v.end - current_start;
                let data_end = if (ve_rel as usize) < MERGE_WINDOW {
                    ve_rel as usize
                } else {
                    MERGE_WINDOW
                };
                let ghost au = uptos_at(pos@, stash@, s as int);
                let ghost bu = au.update(s as int, pos@[s as int] - 1);
                proof {
                    // Before the adds, the cells stand at the counts
                    // that exclude this value.
                    assert(bu =~= bu0);
                }
                apply_cells(
                    data,
                    v,
                    current_start,
                    data_start,
                    data_end,
                    Ghost(ss),
                    Ghost(au),
                    Ghost(bu),
                    Ghost(s as int),
                );
                proof {
                    assert forall|kk: int| 0 <= kk < data@.len() && !(data_start <= kk
                        < data_end) implies #[trigger] data@[kk] == acc_sum(
                        ss,
                        bu,
                        cs + kk,
                        n as int,
                    ) by {}
                }
                if ve_rel as usize >= MERGE_WINDOW {
                    stash[s] = Some(v);
                    done = true;
                }
                proof {
                    // After the adds, the cells stand at the counts
                    // that include this value, under either exit.
                    let cu = uptos_at(
                        pos@,
                        stash@,
                        if done {
                            s + 1
                        } else {
                            s as int
                        },
                    );
                    assert forall|kk: int| 0 <= kk < data@.len() implies #[trigger] data@[
                        kk
                    ] == acc_sum(ss, cu, cs + kk, n as int) by {
                        let p = cs + kk;
                        assert(cu[s as int] == pos@[s as int] as int);
                        if data_start <= kk < data_end {
                            assert(data@[kk] == acc_sum(ss, au, p, n as int));
                            lemma_acc_sum_same_covering(ss, cu, au, p, n as int);
                        } else {
                            assert(data@[kk] == acc_sum(ss, bu, p, n as int));
                            assert(covering_value_before(
                                ss[s as int]@,
                                p,
                                cu[s as int],
                            ) == covering_value_before(
                                ss[s as int]@,
                                p,
                                bu[s as int],
                            )) by {
                                assert(!(v.start <= p < v.end));
                            }
                            lemma_acc_sum_same_covering(ss, cu, bu, p, n as int);
                        }
                    }
                    if done {
                        assert forall|j: int|
                            pos@[s as int] <= j < sections@[s as int]@.len() implies (
                        #[trigger] sections@[s as int]@[j]).start >= cs + MERGE_WINDOW by {
                            lemma_sorted_apart(
                                sections@[s as int]@,
                                pos@[s as int] - 1,
                                j,
                            );
                        }
                    }
                }
            }
    done
}

/// Pulls from stream `s` every value that touches the current window,
/// adding each into the cells it covers, and stashes the value that reaches
/// the window's end or starts beyond it. Returns whether anything was
/// pulled.
#[verifier::loop_isolation(false)]
#[verifier::rlimit(100)]
#[verifier::spinoff_prover]
fn drain_section(
    sections: &Vec<Vec<Value>>,
    s: usize,
    pos: &mut Vec<usize>,
    stash: &mut Vec<Option<Value>>,
    data: &mut Vec<u32>,
    current_start: u32,
) -> (pulled: bool)
    requires
        forall|t: int| 0 <= t < sections@.len() ==> sorted_disjoint((#[trigger] sections@[t])@),
        forall|t: int, j: int|
            0 <= t < sections@.len() && 0 <= j < sections@[t]@.len() ==> (#[trigger] sections@[t]@[j]).end
                <= MERGE_END_LIMIT,
        old(pos)@.len() == sections@.len(),
        old(stash)@.len() == sections@.len(),
        old(data)@.len() == MERGE_WINDOW,
        current_start as int + MERGE_WINDOW <= u32::MAX as int + 1,
        (s as int) < sections@.len(),
        forall|t: int| 0 <= t < sections@.len() ==> #[trigger] old(pos)@[t] <= sections@[t]@.len(),
        forall|t: int|
            0 <= t < sections@.len() && old(stash)@[t] is Some ==> 1 <= #[trigger] old(pos)@[t],
        match old(stash)@[s as int] {
            Some(v) => 1 <= old(pos)@[s as int] && v == sections@[s as int]@[old(pos)@[s as int]
                - 1] && v.end >= current_start,
            None => old(pos)@[s as int] == sections@[s as int]@.len() || (old(pos)@[s as int] == 0
                && current_start == 0),
        },
        forall|t: int, j: int|
            (s as int) <= t < sections@.len() && 0 <= j < done_count(
                old(pos)@[t] as int,
                old(stash)@[t],
            ) ==> (#[trigger] sections@[t]@[j]).end <= current_start,
        forall|k: int|
            0 <= k < old(data)@.len() ==> #[trigger] old(data)@[k] == acc_sum(
                sections@,
                uptos_at(old(pos)@, old(stash)@, s as int),
                current_start + k,
                sections@.len() as int,
            ),
    ensures
        final(pos)@.len() == sections@.len(),
        final(stash)@.len() == sections@.len(),
        final(data)@.len() == MERGE_WINDOW,
        forall|t: int|
            0 <= t < sections@.len() && t != s ==> #[trigger] final(stash)@[t] == old(stash)@[t],
        forall|t: int|
            0 <= t < sections@.len() && t != s ==> #[trigger] final(pos)@[t] == old(pos)@[t],
        final(pos)@[s as int] <= sections@[s as int]@.len(),
        match final(stash)@[s as int] {
            Some(v) => 1 <= final(pos)@[s as int] && v == sections@[s as int]@[final(pos)@[
                s as int
            ] - 1] && v.end >= current_start as int + MERGE_WINDOW,
            None => final(pos)@[s as int] == sections@[s as int]@.len(),
        },
        forall|j: int|
            0 <= j < done_count(final(pos)@[s as int] as int, final(stash)@[s as int]) ==> (
            #[trigger] sections@[s as int]@[j]).end <= current_start as int + MERGE_WINDOW,
        forall|k: int|
            0 <= k < final(data)@.len() ==> #[trigger] final(data)@[k] == acc_sum(
                sections@,
                uptos_at(final(pos)@, final(stash)@, s + 1),
                current_start + k,
                sections@.len() as int,
            ),
        pulled ==> current_start <= MERGE_END_LIMIT,
        !pulled ==> final(stash)@[s as int] is None,
{
    let ghost ss = sections@;
    let ghost cs = current_start as int;
    let n = sections.len();
    let mut all_none = true;
    let ghost stash0 = stash@;
    let ghost pos0 = pos@;
    let mut done = false;
    while !done
        invariant
            pos@.len() == n,
            stash@.len() == n,
            data@.len() == MERGE_WINDOW,
            s < n,
            forall|t: int| 0 <= t < n && t != s ==> #[trigger] stash@[t] == stash0[t],
            forall|t: int| 0 <= t < n && t != s ==> #[trigger] pos@[t] == pos0[t],
            forall|k: int|
                0 <= k < data@.len() ==> #[trigger] data@[k] == acc_sum(
                    ss,
                    uptos_at(
                        pos@,
                        stash@,
                        if done {
                            s + 1
                        } else {
                            s as int
                        },
                    ),
                    cs + k,
                    n as int,
                ),
            pos@[s as int] <= sections@[s as int]@.len(),
            match stash@[s as int] {
                Some(v) => 1 <= pos@[s as int] && v == sections@[s as int]@[pos@[s as int]
                    - 1] && v.end >= current_start,
                None => pos@[s as int] == sections@[s as int]@.len() || (pos@[s as int] == 0
                    && current_start == 0) || (1 <= pos@[s as int] && sections@[s as int]@[
                    pos@[s as int] - 1
                ].end >= current_start),
            },
            forall|j: int|
                0 <= j < done_count(pos@[s as int] as int, stash@[s as int]) ==> (
                #[trigger] sections@[s as int]@[j]).end <= cs + MERGE_WINDOW,
            all_none && done ==> stash@[s as int] is None,
            done ==> match stash@[s as int] {
                Some(v) => v.end >= current_start as int + MERGE_WINDOW,
                None => pos@[s as int] == sections@[s as int]@.len(),
            },
            done ==> forall|j: int|
                pos@[s as int] <= j < sections@[s as int]@.len() ==> (
                #[trigger] sections@[s as int]@[j]).start >= cs + MERGE_WINDOW,
            !all_none ==> current_start <= MERGE_END_LIMIT,
        decreases 2 * (sections@[s as int]@.len() - pos@[s as int]) + (if stash@[s as int]
            is Some {
            1int
        } else {
            0int
        }) + (if done {
            0int
        } else {
            1int
        }),
    {
        let ghost pre_pos = pos@;
        let ghost pre_stash = stash@;
        let stashed = stash[s];
        let pulled: Option<Value>;
        match stashed {
            Some(x) => {
                stash[s] = None;
                pulled = Some(x);
            },
            None => {
                if pos[s] >= sections[s].len() {
                    pulled = None;
                } else {
                    pulled = Some(sections[s][pos[s]]);
                    pos[s] = pos[s] + 1;
                }
            },
        }
        match pulled {
            None => {
                done = true;
                proof {
                    assert(uptos_at(pos@, stash@, s + 1) =~= uptos_at(pos@, stash@, s as int));
                }
            },
            Some(v) => {
                all_none = false;
                proof {
                    assert(v == sections@[s as int]@[pos@[s as int] - 1]);
                    assert(sections@[s as int]@[pos@[s as int] - 1].end <= MERGE_END_LIMIT);
                    assert(v.start < v.end) by {
                        assert(sorted_disjoint(sections@[s as int]@));
                    }
                    assert(v.end >= current_start) by {
                        if stashed is None && pos0[s as int] >= 1 {
                            assert(sorted_disjoint(sections@[s as int]@));
                        }
                    }
                    assert(uptos_at(pos@, stash@, s as int).update(
                        s as int,
                        pos@[s as int] - 1,
                    ) =~= uptos_at(pre_pos, pre_stash, s as int));
                }
                let now_done = pull_one(sections, s, v, pos, stash, data, current_start);
                done = now_done;
            },
        }
    }
    proof {
        // Section `s` is settled: its counted items are exactly those
        // reaching the window, so moving it to the processed side keeps
        // every cell's sum.
        assert(uptos_at(pos@, stash@, s + 1) =~= uptos_at(pos@, stash@, s + 1));
    }
    !all_none
}

/// Fills one window of the per-base accumulator from every stream: values
/// overlapping the window are added into the cells they cover, and a value
/// reaching the window's end (or starting beyond it) is stashed for the next
/// window. Each cell ends up holding exactly the accumulated per-base sum of
/// the streams at its base. Returns whether any stream still had a value to
/// offer.
#[verifier::loop_isolation(false)]
#[verifier::rlimit(100)]
#[verifier::spinoff_prover]
fn fill_window(
    sections: &Vec<Vec<Value>>,
    pos: &mut Vec<usize>,
    stash: &mut Vec<Option<Value>>,
    data: &mut Vec<u32>,
    current_start: u32,
) -> (pulled_any: bool)
    requires
        forall|s: int| 0 <= s < sections@.len() ==> sorted_disjoint((#[trigger] sections@[s])@),
        forall|s: int, j: int|
            0 <= s < sections@.len() && 0 <= j < sections@[s]@.len() ==> (#[trigger] sections@[s]@[j]).end
                <= MERGE_END_LIMIT,
        old(pos)@.len() == sections@.len(),
        old(stash)@.len() == sections@.len(),
        old(data)@.len() == MERGE_WINDOW,
        current_start as int + MERGE_WINDOW <= u32::MAX as int + 1,
        forall|k: int| 0 <= k < old(data)@.len() ==> #[trigger] old(data)@[k] == 0,
        forall|t: int| 0 <= t < sections@.len() ==> #[trigger] old(pos)@[t] <= sections@[t]@.len(),
        forall|t: int|
            0 <= t < sections@.len() ==> match #[trigger] old(stash)@[t] {
                Some(v) => 1 <= old(pos)@[t] && v == sections@[t]@[old(pos)@[t] - 1] && v.end
                    >= current_start,
                None => old(pos)@[t] == sections@[t]@.len() || (current_start == 0 && old(
                    pos,
                )@[t] == 0),
            },
        forall|t: int, j: int|
            0 <= t < sections@.len() && 0 <= j < done_count(
                old(pos)@[t] as int,
                old(stash)@[t],
            ) ==> (#[trigger] sections@[t]@[j]).end <= current_start,
    ensures
        final(pos)@.len() == sections@.len(),
        final(stash)@.len() == sections@.len(),
        final(data)@.len() == MERGE_WINDOW,
        forall|k: int|
            0 <= k < final(data)@.len() ==> #[trigger] final(data)@[k] == base_sum(
                sections@,
                current_start + k,
                sections@.len() as int,
            ),
        forall|k: int|
            0 <= k < final(data)@.len() && !is_zero_f32_bits(#[trigger] final(data)@[k])
                ==> covered_by_inputs(sections@, current_start + k),
        forall|t: int|
            0 <= t < sections@.len() ==> #[trigger] final(pos)@[t] <= sections@[t]@.len(),
        forall|t: int|
            0 <= t < sections@.len() ==> match #[trigger] final(stash)@[t] {
                Some(v) => 1 <= final(pos)@[t] && v == sections@[t]@[final(pos)@[t] - 1] && v.end
                    >= current_start as int + MERGE_WINDOW,
                None => final(pos)@[t] == sections@[t]@.len(),
            },
        forall|t: int, j: int|
            0 <= t < sections@.len() && 0 <= j < done_count(
                final(pos)@[t] as int,
                final(stash)@[t],
            ) ==> (#[trigger] sections@[t]@[j]).end <= current_start as int + MERGE_WINDOW,
        pulled_any ==> current_start <= MERGE_END_LIMIT,
        !pulled_any ==> forall|t: int|
            0 <= t < sections@.len() ==> #[trigger] final(stash)@[t] is None,
{
    let ghost ss = sections@;
    let ghost cs = current_start as int;
    let n = sections.len();
    let mut all_none = true;
    let mut s: usize = 0;
    proof {
        assert forall|k: int| 0 <= k < data@.len() implies #[trigger] data@[k] == acc_sum(
            ss,
            uptos_at(pos@, stash@, 0),
            cs + k,
            n as int,
        ) by {
            assert forall|u: int|
                0 <= u < n implies covering_value_before(
                (#[trigger] ss[u])@,
                cs + k,
                uptos_at(pos@, stash@, 0)[u],
            ) is None by {
                lemma_covering_before_none(ss[u]@, cs + k, uptos_at(pos@, stash@, 0)[u]);
            }
            lemma_acc_sum_zero(ss, uptos_at(pos@, stash@, 0), cs + k, n as int);
        }
    }
    while s < n
        invariant
            s <= n,
            pos@.len() == n,
            stash@.len() == n,
            data@.len() == MERGE_WINDOW,
            forall|k: int|
                0 <= k < data@.len() ==> #[trigger] data@[k] == acc_sum(
                    ss,
                    uptos_at(pos@, stash@, s as int),
                    cs + k,
                    n as int,
                ),
            forall|t: int| 0 <= t < n ==> #[trigger] pos@[t] <= sections@[t]@.len(),
            forall|t: int|
                0 <= t < s ==> match #[trigger] stash@[t] {
                    Some(v) => 1 <= pos@[t] && v == sections@[t]@[pos@[t] - 1] && v.end
                        >= current_start as int + MERGE_WINDOW,
                    None => pos@[t] == sections@[t]@.len(),
                },
            forall|t: int|
                s <= t < n ==> match #[trigger] stash@[t] {
                    Some(v) => 1 <= pos@[t] && v == sections@[t]@[pos@[t] - 1] && v.end
                        >= current_start,
                    None => pos@[t] == sections@[t]@.len() || (current_start == 0 && pos@[t]
                        == 0),
                },
            forall|t: int, j: int|
                (s as int) <= t < n && 0 <= j < done_count(pos@[t] as int, stash@[t]) ==> (
                #[trigger] sections@[t]@[j]).end <= cs,
            forall|t: int, j: int|
                0 <= t < (s as int) && 0 <= j < done_count(pos@[t] as int, stash@[t]) ==> (
                #[trigger] sections@[t]@[j]).end <= cs + MERGE_WINDOW,
            all_none ==> forall|t: int| 0 <= t < s ==> #[trigger] stash@[t] is None,
            !all_none ==> current_start <= MERGE_END_LIMIT,
        decreases n - s,
    {
        let ghost pre_stash_m = stash@;
        let pulled = drain_section(sections, s, pos, stash, data, current_start);
        if pulled {
            all_none = false;
        }
        proof {
            if all_none {
                assert(!pulled);
                assert forall|t: int| 0 <= t < s + 1 implies #[trigger] stash@[t] is None by {
                    if t < s {
                        assert(stash@[t] == pre_stash_m[t]);
                        assert(pre_stash_m[t] is None);
                    } else {
                        assert(t == s as int);
                        assert(stash@[s as int] is None);
                    }
                }
            }
        }
        s = s + 1;
    }
    proof {
        let uptos = uptos_at(pos@, stash@, n as int);
        assert forall|k: int| 0 <= k < data@.len() implies #[trigger] data@[k] == base_sum(
            ss,
            cs + k,
            n as int,
        ) by {
            let p = cs + k;
            assert forall|u: int|
                0 <= u < n implies covering_value_before((#[trigger] ss[u])@, p, uptos[u])
                == covering_value(ss[u]@, p) by {
                assert forall|j: int|
                    uptos[u] <= j < ss[u]@.len() implies !((#[trigger] ss[u]@[j]).start <= p
                    < ss[u]@[j].end) by {
                    match stash@[u] {
                        Some(v) => {
                            if j == pos@[u] - 1 {
                                assert(v.end >= cs + MERGE_WINDOW);
                                assert(!(v.start <= p < v.end) ==> true);
                                if v.start <= p < v.end {
                                    // A stashed value reaching past the
                                    // window still covers its window cells:
                                    // it was counted, so it is below uptos.
                                    assert(false);
                                }
                            } else {
                                assert(j >= pos@[u]);
                                lemma_sorted_apart(ss[u]@, pos@[u] - 1, j);
                                assert(ss[u]@[j].start >= ss[u]@[pos@[u] - 1].end);
                            }
                        },
                        None => {
                            assert(pos@[u] == ss[u]@.len());
                        },
                    }
                }
                lemma_covering_before_stable(ss[u]@, p, uptos[u], ss[u]@.len() as int);
            }
            lemma_acc_sum_is_base(ss, uptos, p, n as int);
        }
        assert forall|k: int|
            0 <= k < data@.len() && !is_zero_f32_bits(#[trigger] data@[k]) implies covered_by_inputs(
            ss,
            cs + k,
        ) by {
            let p = cs + k;
            if !covered_by_inputs(ss, p) {
                assert forall|u: int|
                    0 <= u < n implies covering_value_before(
                    (#[trigger] ss[u])@,
                    p,
                    uptos_at(pos@, stash@, n as int)[u],
                ) is None by {
                    assert forall|j: int|
                        0 <= j < uptos_at(pos@, stash@, n as int)[u] implies !((
                    #[trigger] ss[u]@[j]).start <= p < ss[u]@[j].end) by {
                        assert(0 <= u < ss.len() && 0 <= j < ss[u]@.len());
                    }
                    lemma_covering_before_none(
                        ss[u]@,
                        p,
                        uptos_at(pos@, stash@, n as int)[u],
                    );
                }
                lemma_acc_sum_zero(ss, uptos_at(pos@, stash@, n as int), p, n as int);
            }
        }
    }

    !all_none
}

/// Whether the outputs so far, or the carried-over value, cover the base.
pub open spec fn covered_out_lv(out: Seq<Value>, lv: Option<Value>, p: int) -> bool {
    covered_by_values(out, p) || (lv matches Some(v) && v.start <= p < v.end)
}

/// The accumulated per-base sums of one whole window.
#[verifier::opaque]
pub open spec fn window_cells(ss: Seq<Vec<Value>>, w: int) -> Seq<u32> {
    Seq::new(MERGE_WINDOW as nat, |k: int| base_sum(ss, w * MERGE_WINDOW + k, ss.len() as int))
}

/// Whether the base sits in a stretch of its window's accumulated sums led
/// by a zero pattern, with everything after that zero within EPSILON of it —
/// the one shape of base the merge may leave uncovered, its run joined to a
/// suppressed zero run.
#[verifier::opaque]
pub open spec fn absorbed_near_zero(ss: Seq<Vec<Value>>, p: int) -> bool {
    near_zero_stretch(
        window_cells(ss, p / (MERGE_WINDOW as int)),
        p % (MERGE_WINDOW as int),
    )
}

/// Whether a merged value carries exactly the accumulated per-base sum of
/// the streams at its start base, and is not a zero pattern (zero runs are
/// suppressed).
pub open spec fn value_is_base_sum(ss: Seq<Vec<Value>>, v: Value) -> bool {
    v.value == base_sum(ss, v.start as int, ss.len() as int) && !is_zero_f32_bits(v.value)
}

/// Emitting a window keeps everything covered that was covered before, and
/// covers every cell the encoder covered: the queue's last value waits as
/// the carried-over value, the rest moves to the output.
#[verifier::rlimit(100)]
#[verifier::spinoff_prover]
proof fn lemma_emit_coverage(
    out0: Seq<Value>,
    emitted: Seq<Value>,
    queue0: Seq<Value>,
    rle0: Seq<Value>,
    taken: Option<Value>,
    lv2: Option<Value>,
    out_final: Seq<Value>,
    data: Seq<u32>,
    current_start: u32,
)
    requires
        out_final == out0 + emitted,
        queue0 == match taken {
            Some(lv) => seq![lv] + rle0,
            None => rle0,
        },
        queue0.len() > 0 ==> emitted == queue0.drop_last() && lv2 == Some(queue0.last()),
        queue0.len() == 0 ==> emitted == queue0 && lv2 is None,
        forall|k: int|
            0 <= k < data.len() && !covered_by_values(rle0, current_start + k)
                ==> near_zero_stretch(data, k),
    ensures
        forall|p: int| covered_out_lv(out0, taken, p) ==> covered_out_lv(out_final, lv2, p),
        forall|k: int|
            0 <= k < data.len() && !near_zero_stretch(data, k) ==> covered_out_lv(
                out_final,
                lv2,
                current_start + k,
            ),
{
    assert forall|p: int| covered_out_lv(out0, taken, p) implies covered_out_lv(
        out_final,
        lv2,
        p,
    ) by {
        if covered_by_values(out0, p) {
            let i = choose|i: int|
                0 <= i < out0.len() && (#[trigger] out0[i]).start <= p < out0[i].end;
            assert(out_final[i] == out0[i]);
        } else {
            let lv = taken.unwrap();
            assert(queue0[0] == lv);
            if emitted.len() > 0 {
                assert(out_final[out0.len() as int] == queue0[0]);
            } else {
                assert(lv2 == Some(queue0[queue0.len() - 1]));
            }
        }
    }
    assert forall|k: int|
        0 <= k < data.len() && !near_zero_stretch(data, k) implies covered_out_lv(
        out_final,
        lv2,
        current_start + k,
    ) by {
        let p = current_start + k;
        assert(covered_by_values(rle0, p));
        let i = choose|i: int|
            0 <= i < rle0.len() && (#[trigger] rle0[i]).start <= p < rle0[i].end;
        let j = if taken is Some {
            i + 1
        } else {
            i
        };
        assert(queue0[j] == rle0[i]);
        if j < queue0.len() - 1 {
            assert(out_final[out0.len() + j] == emitted[j]);
            assert(emitted[j] == queue0[j]);
        } else {
            assert(lv2 == Some(queue0[queue0.len() - 1]));
        }
    }
}

/// Encodes one filled window, inserts the carried-over value, retains the
/// last encoded value for the next window, and appends the rest to the
/// output.
#[verifier::loop_isolation(false)]
#[verifier::rlimit(100)]
#[verifier::spinoff_prover]
fn emit_window(
    out: &mut Vec<Value>,
    last_val: &mut Option<Value>,
    data: &Vec<u32>,
    current_start: u32,
    sections: &Vec<Vec<Value>>,
)
    requires
        data@.len() == MERGE_WINDOW,
        current_start as int + MERGE_WINDOW <= u32::MAX as int,
        forall|k: int|
            0 <= k < data@.len() && !is_zero_f32_bits(#[trigger] data@[k]) ==> covered_by_inputs(
                sections@,
                current_start + k,
            ),
        forall|k: int|
            0 <= k < data@.len() ==> #[trigger] data@[k] == base_sum(
                sections@,
                current_start + k,
                sections@.len() as int,
            ),
        forall|i: int| 0 <= i < old(out)@.len() ==> value_is_base_sum(
            sections@,
            #[trigger] old(out)@[i],
        ),
        (*old(last_val)) matches Some(lv) ==> value_is_base_sum(sections@, lv),
        forall|i: int| 0 <= i < old(out)@.len() ==> (#[trigger] old(out)@[i]).start < old(out)@[i].end,
        forall|i: int|
            0 <= i < old(out)@.len() - 1 ==> (#[trigger] old(out)@[i]).end <= old(out)@[i + 1].start,
        forall|i: int|
            0 <= i < old(out)@.len() ==> covered_by_inputs(
                sections@,
                (#[trigger] old(out)@[i]).start as int,
            ),
        match *old(last_val) {
            Some(lv) => lv.start < lv.end && lv.end <= current_start && covered_by_inputs(
                sections@,
                lv.start as int,
            ) && (old(out)@.len() > 0 ==> old(out)@[old(out)@.len() - 1].end <= lv.start),
            None => old(out)@.len() == 0,
        },
    ensures
        forall|p: int|
            covered_out_lv(old(out)@, *old(last_val), p) ==> covered_out_lv(
                final(out)@,
                *final(last_val),
                p,
            ),
        forall|k: int|
            0 <= k < data@.len() && !near_zero_stretch(data@, k) ==> covered_out_lv(
                final(out)@,
                *final(last_val),
                current_start + k,
            ),
        forall|i: int| 0 <= i < final(out)@.len() ==> value_is_base_sum(
            sections@,
            #[trigger] final(out)@[i],
        ),
        (*final(last_val)) matches Some(lv2) ==> value_is_base_sum(sections@, lv2),
        forall|i: int|
            0 <= i < final(out)@.len() ==> (#[trigger] final(out)@[i]).start < final(out)@[i].end,
        forall|i: int|
            0 <= i < final(out)@.len() - 1 ==> (#[trigger] final(out)@[i]).end <= final(out)@[i
                + 1].start,
        forall|i: int|
            0 <= i < final(out)@.len() ==> covered_by_inputs(
                sections@,
                (#[trigger] final(out)@[i]).start as int,
            ),
        match *final(last_val) {
            Some(lv) => lv.start < lv.end && lv.end <= current_start as int + MERGE_WINDOW
                && covered_by_inputs(sections@, lv.start as int) && (final(out)@.len() > 0
                ==> final(out)@[final(out)@.len() - 1].end <= lv.start),
            None => final(out)@.len() == 0,
        },
{
    let mut next_sections = rle_encode(&data, current_start);
    let taken = *last_val;
    *last_val = None;
    let ghost rle0 = next_sections@;
    match taken {
        Some(lv) => {
            insert_into_queue(&mut next_sections, lv);
        },
        None => {},
    }
    let ghost queue0 = next_sections@;
    proof {
        assert(forall|i: int|
            0 <= i < queue0.len() ==> (#[trigger] queue0[i]).start < queue0[i].end);
        assert(forall|i: int|
            0 <= i < queue0.len() - 1 ==> (#[trigger] queue0[i]).end <= queue0[i + 1].start);
        assert(forall|i: int|
            0 <= i < queue0.len() ==> covered_by_inputs(
                sections@,
                (#[trigger] queue0[i]).start as int,
            )) by {
            assert forall|i: int| 0 <= i < queue0.len() implies covered_by_inputs(
                sections@,
                (#[trigger] queue0[i]).start as int,
            ) && value_is_base_sum(sections@, queue0[i]) by {
                if taken is Some && i == 0 {
                } else {
                    let j = if taken is Some {
                        i - 1
                    } else {
                        i
                    };
                    assert(queue0[i] == rle0[j]);
                    assert(rle0[j].value == data@[rle0[j].start - current_start]);
                    assert(!is_zero_f32_bits(data@[rle0[j].start - current_start]));
                    assert(current_start as int + (rle0[j].start - current_start) == rle0[
                        j
                    ].start as int);
                }
            }
        }
        assert(forall|i: int|
            0 <= i < queue0.len() ==> (#[trigger] queue0[i]).end <= current_start as int + MERGE_WINDOW);
    }
    if next_sections.len() > 0 {
        match next_sections.pop() {
            Some(x) => {
                *last_val = Some(x);
            },
            None => {},
        }
    }
    let ghost out0 = out@;
    let ghost emitted = next_sections@;
    out.append(&mut next_sections);
    proof {
        lemma_emit_coverage(out0, emitted, queue0, rle0, taken, *last_val, out@, data@, current_start);
        assert forall|i: int| 0 <= i < out@.len() - 1 implies (#[trigger] out@[i]).end <= out@[i
            + 1].start by {
            if i < out0.len() - 1 {
                assert(out@[i] == out0[i]);
                assert(out@[i + 1] == out0[i + 1]);
            } else if i == out0.len() - 1 {
                assert(out@[i] == out0[i]);
                assert(out@[i + 1] == emitted[0]);
                assert(emitted[0] == queue0[0]);
                assert(taken is Some && out0.len() > 0 ==> out0[out0.len() - 1].end
                    <= queue0[0].start);
            } else {
                assert(out@[i] == emitted[i - out0.len()]);
                assert(out@[i + 1] == emitted[i + 1 - out0.len()]);
                assert(emitted[i - out0.len()] == queue0[i - out0.len()]);
                assert(emitted[i + 1 - out0.len()] == queue0[i + 1 - out0.len()]);
            }
        }
    }
}

/// A finished window extends coverage to its own span: every base of it not
/// absorbed into a near-zero stretch lies under the output or the carried
/// value.
#[verifier::rlimit(100)]
#[verifier::spinoff_prover]
proof fn lemma_window_coverage(
    ss: Seq<Vec<Value>>,
    current_start: u32,
    data: Seq<u32>,
    pre_out: Seq<Value>,
    pre_lv: Option<Value>,
    out: Seq<Value>,
    lv: Option<Value>,
)
    requires
        current_start as int % (MERGE_WINDOW as int) == 0,
        current_start as int + MERGE_WINDOW <= u32::MAX as int,
        data.len() == MERGE_WINDOW,
        forall|k: int|
            0 <= k < data.len() ==> #[trigger] data[k] == base_sum(
                ss,
                current_start + k,
                ss.len() as int,
            ),
        forall|p: int|
            0 <= p < current_start && !absorbed_near_zero(ss, p) ==> covered_out_lv(
                pre_out,
                pre_lv,
                p,
            ),
        forall|p: int| covered_out_lv(pre_out, pre_lv, p) ==> covered_out_lv(out, lv, p),
        forall|k: int|
            0 <= k < data.len() && !near_zero_stretch(data, k) ==> covered_out_lv(
                out,
                lv,
                current_start + k,
            ),
    ensures
        forall|p: int|
            0 <= p < current_start as int + MERGE_WINDOW && !absorbed_near_zero(ss, p)
                ==> covered_out_lv(out, lv, p),
{
    reveal(window_cells);
    reveal(absorbed_near_zero);
    let wdx = current_start as int / (MERGE_WINDOW as int);
    assert(current_start as int == wdx * (MERGE_WINDOW as int)) by {
        vstd::arithmetic::div_mod::lemma_fundamental_div_mod(
            current_start as int,
            MERGE_WINDOW as int,
        );
    }
    assert(data =~= window_cells(ss, wdx));
    assert forall|p: int|
        0 <= p < current_start as int + MERGE_WINDOW && !absorbed_near_zero(
            ss,
            p,
        ) implies covered_out_lv(out, lv, p) by {
        if p < current_start {
            assert(covered_out_lv(pre_out, pre_lv, p));
        } else {
            let k = p - current_start;
            vstd::arithmetic::div_mod::lemma_fundamental_div_mod_converse(
                p,
                MERGE_WINDOW as int,
                wdx,
                k,
            );
            assert(!near_zero_stretch(window_cells(ss, wdx), k));
            assert(!near_zero_stretch(data, k));
        }
    }
}

/// With every stream exhausted, every input base not absorbed into a
/// near-zero stretch lies under the final output.
#[verifier::rlimit(100)]
#[verifier::spinoff_prover]
proof fn lemma_final_coverage(
    ss: Seq<Vec<Value>>,
    out_before: Seq<Value>,
    lv_before: Option<Value>,
    out: Seq<Value>,
    next_start: u32,
)
    requires
        forall|p: int|
            0 <= p < next_start && !absorbed_near_zero(ss, p) ==> covered_out_lv(
                out_before,
                lv_before,
                p,
            ),
        forall|si: int, ji: int|
            0 <= si < ss.len() && 0 <= ji < ss[si]@.len() ==> (#[trigger] ss[si]@[ji]).end
                <= next_start,
        out == match lv_before {
            Some(lv) => out_before.push(lv),
            None => out_before,
        },
    ensures
        forall|p: int|
            covered_by_inputs(ss, p) && !absorbed_near_zero(ss, p) ==> covered_by_values(out, p),
{
    assert forall|p: int|
        covered_by_inputs(ss, p) && !absorbed_near_zero(ss, p) implies covered_by_values(
        out,
        p,
    ) by {
        let (si, ji) = choose|si: int, ji: int|
            0 <= si < ss.len() && 0 <= ji < ss[si]@.len() && (#[trigger] ss[si]@[ji]).start <= p
                < ss[si]@[ji].end;
        assert(ss[si]@[ji].end <= next_start);
        assert(covered_out_lv(out_before, lv_before, p));
        if covered_by_values(out_before, p) {
            let i = choose|i: int|
                0 <= i < out_before.len() && (#[trigger] out_before[i]).start <= p
                    < out_before[i].end;
            assert(out[i] == out_before[i]);
        } else {
            assert(out[out.len() - 1] == lv_before.unwrap());
        }
    }
}

/// Merges coordinate-sorted `Value` streams over one coordinate axis into one
/// coordinate-sorted, non-overlapping stream: the streams are added into a
/// per-base accumulator, one window at a time, and each window is
/// run-length-encoded back into zero-suppressed values (runs within EPSILON
/// of their first base join it). The last encoded value of each window is
/// carried into the next so that a run ending exactly at a window boundary
/// can continue.
///
/// Every value of the result begins at a base that some input value covers
/// and carries exactly the accumulated per-base sum of the streams there;
/// and every covered base comes back under some value, unless its run was
/// joined to a suppressed zero run (`absorbed_near_zero`).
#[verifier::loop_isolation(false)]
#[verifier::rlimit(100)]
#[verifier::spinoff_prover]
pub fn merge_sections_many(sections: Vec<Vec<Value>>) -> (r: Vec<Value>)
    requires
        forall|s: int| 0 <= s < sections@.len() ==> sorted_disjoint((#[trigger] sections@[s])@),
        forall|s: int, j: int|
            0 <= s < sections@.len() && 0 <= j < sections@[s]@.len() ==> (#[trigger] sections@[s]@[j]).end
                <= MERGE_END_LIMIT,
    ensures
        forall|i: int| 0 <= i < r@.len() ==> (#[trigger] r@[i]).start < r@[i].end,
        forall|i: int| 0 <= i < r@.len() - 1 ==> (#[trigger] r@[i]).end <= r@[i + 1].start,
        forall|i: int| 0 <= i < r@.len() ==> covered_by_inputs(sections@, (#[trigger] r@[i]).start as int),
        forall|i: int|
            0 <= i < r@.len() ==> (#[trigger] r@[i]).value == base_sum(
                sections@,
                r@[i].start as int,
                sections@.len() as int,
            ) && !is_zero_f32_bits(r@[i].value),
        forall|p: int|
            covered_by_inputs(sections@, p) && !absorbed_near_zero(sections@, p)
                ==> covered_by_values(r@, p),
{
    let n = sections.len();
    let mut pos: Vec<usize> = vec![0usize; n];
    let mut stash: Vec<Option<Value>> = vec![None; n];
    let mut out: Vec<Value> = Vec::new();
    let mut last_val: Option<Value> = None;
    let mut next_start: u32 = 0;

    loop
        invariant
            pos@.len() == n,
            stash@.len() == n,
            next_start as int <= MERGE_END_LIMIT as int + 50_000,
            forall|t: int| 0 <= t < n ==> #[trigger] pos@[t] <= sections@[t]@.len(),
            forall|t: int|
                0 <= t < n ==> match #[trigger] stash@[t] {
                    Some(v) => 1 <= pos@[t] && v == sections@[t]@[pos@[t] - 1] && v.end
                        >= next_start,
                    None => pos@[t] == sections@[t]@.len() || (next_start == 0 && pos@[t] == 0),
                },
            forall|t: int, j: int|
                0 <= t < n && 0 <= j < done_count(pos@[t] as int, stash@[t]) ==> (
                #[trigger] sections@[t]@[j]).end <= next_start,
            forall|i: int| 0 <= i < out@.len() ==> (#[trigger] out@[i]).start < out@[i].end,
            forall|i: int| 0 <= i < out@.len() - 1 ==> (#[trigger] out@[i]).end <= out@[i + 1].start,
            forall|i: int|
                0 <= i < out@.len() ==> covered_by_inputs(sections@, (#[trigger] out@[i]).start as int),
            forall|i: int| 0 <= i < out@.len() ==> value_is_base_sum(sections@, #[trigger] out@[i]),
            next_start as int % (MERGE_WINDOW as int) == 0,
            forall|p: int|
                0 <= p < next_start && !absorbed_near_zero(sections@, p) ==> covered_out_lv(
                    out@,
                    last_val,
                    p,
                ),
            match last_val {
                Some(lv) => lv.start < lv.end && lv.end <= next_start && covered_by_inputs(
                    sections@,
                    lv.start as int,
                ) && value_is_base_sum(sections@, lv) && (out@.len() > 0 ==> out@[out@.len()
                    - 1].end <= lv.start),
                None => out@.len() == 0,
            },
        decreases u32::MAX as int - next_start as int,
    {
        let current_start = next_start;
        next_start = current_start + (MERGE_WINDOW as u32);
        let mut data: Vec<u32> = vec![0u32; MERGE_WINDOW];
        proof {
            assert(forall|k: int| 0 <= k < data@.len() ==> #[trigger] data@[k] == 0u32);
        }
        let pulled_any = fill_window(&sections, &mut pos, &mut stash, &mut data, current_start);
        let ghost pre_out = out@;
        let ghost pre_lv = last_val;
        emit_window(&mut out, &mut last_val, &data, current_start, &sections);
        proof {
            lemma_window_coverage(
                sections@,
                current_start,
                data@,
                pre_out,
                pre_lv,
                out@,
                last_val,
            );
        }
        if !pulled_any {
            let ghost out_before = out@;
            let ghost lv_before = last_val;
            match last_val {
                Some(lv) => {
                    out.push(lv);
                },
                None => {},
            }
            proof {
                assert forall|si: int, ji: int|
                    0 <= si < sections@.len() && 0 <= ji < sections@[si]@.len() implies (
                #[trigger] sections@[si]@[ji]).end <= next_start by {
                    assert(stash@[si] is None);
                    assert(ji < done_count(pos@[si] as int, stash@[si]));
                }
                lemma_final_coverage(sections@, out_before, lv_before, out@, next_start);
            }
            return out;
        }
    }
}

/// Whether the item is a value whose bit pattern does not compare equal to
/// `0.0` — a non-zero segment, as opposed to a zero filler.
pub open spec fn nonzero_item<E>(r: Result<Value, E>) -> bool {
    r is Ok && !is_zero_f32_bits(r->Ok_0.value)
}

/// The subsequence of items that are non-zero segments.
pub open spec fn nonzero_items<E>(s: Seq<Result<Value, E>>) -> Seq<Result<Value, E>> {
    s.filter(|r: Result<Value, E>| nonzero_item(r))
}

/// Where a filled stream ends: at the last input value's end, or at
/// `expected_end` where that is asked for and reaches further.
pub open spec fn fill_final_end<E>(
    items: Seq<Result<Value, E>>,
    last_end: u32,
    expected_end: Option<u32>,
) -> int {
    let ce = if items.len() > 0 {
        items.last()->Ok_0.end as int
    } else {
        last_end as int
    };
    match expected_end {
        Some(e) => if e as int > ce {
            e as int
        } else {
            ce
        },
        None => ce,
    }
}

/// Law: on a coordinate-sorted, non-overlapping stream of valid values
/// starting at or after `last_end`, the filled stream is contiguous — each
/// item starts where the previous one ends, beginning at `last_end` — it ends
/// at the stream's end (or at `expected_end` where that reaches further), and
/// its non-zero segments are exactly the input's: everything added is a
/// zero-valued filler.
#[verifier::rlimit(100)]
#[verifier::spinoff_prover]
pub proof fn lemma_fill_contiguous<E>(
    items: Seq<Result<Value, E>>,
    last_end: u32,
    expected_end: Option<u32>,
)
    requires
        forall|i: int| 0 <= i < items.len() ==> #[trigger] items[i] is Ok,
        forall|i: int|
            0 <= i < items.len() ==> (#[trigger] items[i])->Ok_0.start < items[i]->Ok_0.end,
        forall|i: int|
            0 <= i < items.len() - 1 ==> (#[trigger] items[i])->Ok_0.end <= items[i
                + 1]->Ok_0.start,
        items.len() > 0 ==> last_end <= items[0]->Ok_0.start,
    ensures
        ({
            let out = spec_fill(items, last_end, expected_end);
            &&& forall|i: int|
                0 <= i < out.len() ==> #[trigger] out[i] is Ok && out[i]->Ok_0.start
                    < out[i]->Ok_0.end
            &&& out.len() > 0 ==> out[0]->Ok_0.start == last_end
            &&& out.len() > 0 ==> out[out.len() - 1]->Ok_0.end == fill_final_end(
                items,
                last_end,
                expected_end,
            )
            &&& forall|i: int|
                0 <= i < out.len() - 1 ==> (#[trigger] out[i])->Ok_0.end == out[i + 1]->Ok_0.start
            &&& nonzero_items(out) == nonzero_items(items)
        }),
    decreases items.len(),
{
    broadcast use Seq::filter_distributes_over_add;

    let out = spec_fill(items, last_end, expected_end);
    if items.len() == 0 {
        reveal_with_fuel(Seq::filter, 2);
        match expected_end {
            Some(ee) => {
                if last_end < ee {
                    let filler = Ok::<Value, E>(Value { start: last_end, end: ee, value: 0 });
                    assert(out =~= seq![filler]);
                    assert(seq![filler].drop_last() =~= Seq::<Result<Value, E>>::empty());
                    assert(nonzero_items(out) =~= nonzero_items(items));
                } else {
                    assert(nonzero_items(out) =~= nonzero_items(items));
                }
            },
            None => {
                assert(nonzero_items(out) =~= nonzero_items(items));
            },
        }
    } else {
        reveal_with_fuel(Seq::filter, 3);
        let next = items[0]->Ok_0;
        let rest = items.subrange(1, items.len() as int);
        assert forall|i: int| 0 <= i < rest.len() implies #[trigger] rest[i] is Ok
            && rest[i]->Ok_0.start < rest[i]->Ok_0.end by {
            assert(rest[i] == items[i + 1]);
        }
        assert forall|i: int| 0 <= i < rest.len() - 1 implies (#[trigger] rest[i])->Ok_0.end
            <= rest[i + 1]->Ok_0.start by {
            assert(rest[i] == items[i + 1]);
            assert(rest[i + 1] == items[i + 2]);
        }
        if rest.len() > 0 {
            assert(rest[0] == items[1]);
        }
        lemma_fill_contiguous(rest, next.end, expected_end);
        let rout = spec_fill(rest, next.end, expected_end);
        let head = if next.start > last_end {
            seq![Ok::<Value, E>(Value { start: last_end, end: next.start, value: 0 }), items[0]]
        } else {
            seq![items[0]]
        };
        assert(out =~= head + rout);
        assert(nonzero_items(head) =~= nonzero_items(seq![items[0]])) by {
            if next.start > last_end {
                let filler = Ok::<Value, E>(
                    Value { start: last_end, end: next.start, value: 0 },
                );
                assert(head.drop_last() =~= seq![filler]);
                assert(seq![filler].drop_last() =~= Seq::<Result<Value, E>>::empty());
                assert(seq![items[0]].drop_last() =~= Seq::<Result<Value, E>>::empty());
            }
        }
        assert(items =~= seq![items[0]] + rest);
        assert(nonzero_items(out) == nonzero_items(items)) by {
            assert((head + rout).filter(|r: Result<Value, E>| nonzero_item(r)) == head.filter(
                |r: Result<Value, E>| nonzero_item(r),
            ) + rout.filter(|r: Result<Value, E>| nonzero_item(r)));
            assert((seq![items[0]] + rest).filter(|r: Result<Value, E>| nonzero_item(r))
                == seq![items[0]].filter(|r: Result<Value, E>| nonzero_item(r)) + rest.filter(
                |r: Result<Value, E>| nonzero_item(r),
            ));
        }
        if rout.len() > 0 {
            assert(out[out.len() - 1] == rout[rout.len() - 1]);
        }
        assert forall|i: int| 0 <= i < out.len() - 1 implies (#[trigger] out[i])->Ok_0.end == out[i
            + 1]->Ok_0.start by {
            if i < head.len() - 1 {
                assert(out[i] == head[i]);
                assert(out[i + 1] == head[i + 1]);
            } else if i == head.len() - 1 {
                assert(out[i] == head[i]);
                assert(out[i + 1] == rout[0]);
            } else {
                assert(out[i] == rout[i - head.len()]);
                assert(out[i + 1] == rout[i + 1 - head.len()]);
            }
        }
    }
}

/// Fills any space between `Value`s with zero-valued entries.
/// Note: output values will not be merged if any input values are zero.
pub fn fill<E>(iter: Vec<Result<Value, E>>) -> (r: Vec<Result<Value, E>>)
    ensures
        r@ == spec_fill(iter@, 0u32, None::<u32>),
{
    fill_values(iter, 0, None)
}

/// Fills any space between `Value`s with zero-valued entries, and also pads
/// the start and the end with zero-valued entries where they do not reach the
/// given bounds.
/// Note: output values will not be merged if any input values are zero.
///
/// If `start` lies past the start of the first value, it is ignored.
pub fn fill_start_to_end<E>(iter: Vec<Result<Value, E>>, start: u32, end: u32) -> (r: Vec<
    Result<Value, E>,
>)
    ensures
        r@ == spec_fill(iter@, start, Some(end)),
{
    fill_values(iter, start, Some(end))
}

} // verus!
