use std::io;

use bigtools::{fill, fill_start_to_end, merge_into, merge_sections_many, Value};
use rand::rngs::StdRng;
use rand::{Rng, SeedableRng};

fn v(start: u32, end: u32, value: f32) -> Value {
    Value {
        start,
        end,
        value: value.to_bits(),
    }
}

fn generate_sections_seq(start: u32, end: u32, seed: u64) -> Vec<Value> {
    let mut out = vec![];

    let mut rng: StdRng = SeedableRng::seed_from_u64(seed);

    let mut curr = start;
    loop {
        let value: f32 = rng.gen();
        let size = (rng.gen::<f32>() * 20.0).floor() as u32 + 5;
        let skip = 0.max((rng.gen::<f32>() * 10.0).floor() as i32 + -7) as u32;

        let curr_end = end.min(curr + size);
        out.push(Value {
            start: curr,
            end: curr_end,
            value: value.to_bits(),
        });
        // Ensure that we also have a value at the last base
        if end < curr_end {
            out.push(Value {
                start: curr_end - 1,
                end: curr_end,
                value: rng.gen::<f32>().to_bits(),
            });
            break;
        } else if end <= curr_end + skip {
            break;
        } else {
            curr = curr + size + skip;
        }
    }
    out
}

#[test]
fn test_merge_many() {
    let end = 15000;
    let first = generate_sections_seq(50, end, 1234);
    let second = generate_sections_seq(50, end, 12345);
    let merged = merge_sections_many(vec![first, second]);
    let mut last_end = 0;
    let mut last_val = None;
    for val in merged {
        assert!(last_end <= val.start);
        if let Some(last_val) = last_val {
            assert!(last_val != val.value);
        }
        last_end = val.end;
        last_val = Some(val.value);
    }
    assert!(last_end == end);
}

#[test]
fn can_gen() {
    let _sections = generate_sections_seq(50, 150, 1234);
    assert!(_sections.last().map(|v| v.end).unwrap_or(0) == 150);
}

#[test]
fn test_fill() {
    let intervals: Vec<io::Result<Value>> = vec![
        Ok(v(10, 15, 0.5)),
        Ok(v(20, 30, 0.7)),
        Ok(v(30, 35, 0.9)),
        Err(io::Error::new(io::ErrorKind::Other, "Test error")),
    ];

    let filled = fill(intervals);
    let mut iter = filled.into_iter();
    assert_eq!(iter.next().unwrap().unwrap(), v(0, 10, 0.0));
    assert_eq!(iter.next().unwrap().unwrap(), v(10, 15, 0.5));
    assert_eq!(iter.next().unwrap().unwrap(), v(15, 20, 0.0));
    assert_eq!(iter.next().unwrap().unwrap(), v(20, 30, 0.7));
    assert_eq!(iter.next().unwrap().unwrap(), v(30, 35, 0.9));
    assert!(iter.next().unwrap().is_err());
    assert!(iter.next().is_none());
}

#[test]
fn test_fill_start_to_end() {
    let intervals: Vec<io::Result<Value>> = vec![
        Ok(v(10, 15, 0.5)),
        Ok(v(20, 30, 0.7)),
        Ok(v(30, 35, 0.9)),
        Err(io::Error::new(io::ErrorKind::Other, "Test error")),
    ];

    let filled = fill_start_to_end(intervals, 5, 50);
    let mut iter = filled.into_iter();
    assert_eq!(iter.next().unwrap().unwrap(), v(5, 10, 0.0));
    assert_eq!(iter.next().unwrap().unwrap(), v(10, 15, 0.5));
    assert_eq!(iter.next().unwrap().unwrap(), v(15, 20, 0.0));
    assert_eq!(iter.next().unwrap().unwrap(), v(20, 30, 0.7));
    assert_eq!(iter.next().unwrap().unwrap(), v(30, 35, 0.9));
    assert!(iter.next().unwrap().is_err());
    assert_eq!(iter.next().unwrap().unwrap(), v(35, 50, 0.0));
    assert!(iter.next().is_none());
}

#[test]
fn merge_two_streams() {
    let a = vec![v(0, 10, 1.0), v(10, 20, 2.0)];
    let b = vec![v(5, 15, 3.0)];
    let merged = merge_sections_many(vec![a, b]);
    assert_eq!(
        merged,
        vec![v(0, 5, 1.0), v(5, 10, 4.0), v(10, 15, 5.0), v(15, 20, 2.0)]
    );
}

#[test]
fn merge_into_splits() {
    // Equal starts, equal ends: a single summed piece.
    let r = merge_into(v(0, 10, 1.0), v(0, 10, 2.0));
    assert_eq!(r, (v(0, 10, 3.0), None, None, None));

    // The second value reaches further: the tail comes back as an overhang.
    let r = merge_into(v(0, 10, 1.0), v(0, 15, 2.0));
    assert_eq!(r, (v(0, 10, 3.0), None, None, Some(v(10, 15, 2.0))));

    // The second value is strictly inside the first: three pieces.
    let r = merge_into(v(0, 20, 1.0), v(5, 10, 2.0));
    assert_eq!(
        r,
        (v(0, 5, 1.0), Some(v(5, 10, 3.0)), Some(v(10, 20, 1.0)), None)
    );

    // A zero-valued second value is absorbed without re-summing.
    let r = merge_into(v(0, 20, 1.0), v(5, 10, 0.0));
    assert_eq!(r, (v(0, 20, 1.0), None, None, None));

    // The second value starts first: its head comes back unsummed.
    let r = merge_into(v(5, 10, 1.0), v(0, 10, 2.0));
    assert_eq!(r, (v(0, 5, 2.0), Some(v(5, 10, 3.0)), None, None));
}

#[test]
fn merge_into_covers_span() {
    // The pieces tile min(starts)..max(ends) without gaps or overlap.
    let cases = [
        (v(0, 10, 1.5), v(5, 20, 2.5)),
        (v(5, 20, 1.5), v(0, 10, 2.5)),
        (v(0, 30, 1.5), v(10, 20, 0.0)),
        (v(0, 10, 0.0), v(0, 10, 0.0)),
        (v(3, 9, -1.5), v(2, 11, 4.25)),
    ];
    for (one, two) in cases {
        let (a, b, c, d) = merge_into(one, two);
        let mut pieces = vec![a];
        pieces.extend(b);
        pieces.extend(c);
        pieces.extend(d);
        assert_eq!(pieces[0].start, one.start.min(two.start));
        assert_eq!(pieces.last().unwrap().end, one.end.max(two.end));
        for w in pieces.windows(2) {
            assert_eq!(w[0].end, w[1].start);
            assert!(w[0].start < w[0].end);
        }
    }
}

#[test]
fn fill_output_contiguous() {
    let input: Vec<Result<Value, String>> =
        vec![Ok(v(10, 15, 0.5)), Ok(v(20, 30, 0.7)), Ok(v(30, 35, 0.9))];
    let filled = fill(input);
    let vals: Vec<Value> = filled.into_iter().map(|r| r.unwrap()).collect();
    assert_eq!(vals[0].start, 0);
    for w in vals.windows(2) {
        assert_eq!(w[0].end, w[1].start);
    }
    let nonzero: Vec<&Value> = vals.iter().filter(|x| x.value != 0).collect();
    assert_eq!(
        nonzero,
        vec![&v(10, 15, 0.5), &v(20, 30, 0.7), &v(30, 35, 0.9)]
    );
}
