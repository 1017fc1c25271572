use monolith::compaction::{Bstream, CompactType, Compactor, DeCompactor};
use monolith::gorilla::{GorillaCompactor, GorillaDecompactor};
use monolith::time_point::TimePoint;

#[test]
pub fn test_gorilla_compaction() {
    let data: Vec<(Vec<(u64, f64)>, Vec<u8>, u8)> = vec![
        (
            vec![(128, 1.5), (129, 1.5), (130, 1.5), (131, 1.5), (132, 1.5)],
            vec![
                0x0, 0x0, 0x0, 0x0, 0x0, 0x0, 0x0, 0x80, // first timestamp
                0x3f, 0xf8, 0x0, 0x0, 0x0, 0x0, 0x0, 0x0, // first value
                0x0, 0x0, 0x0, 0x0, 0x0, 0x0, 0x0, 0x01, // first delta, which is 1
                0x0,
            ],
            1,
        ),
        (
            vec![(100, 1.5), (102, 1.5), (105, 1.5), (106, 1.5)],
            vec![
                0x0, 0x0, 0x0, 0x0, 0x0, 0x0, 0x0, 0x64, // first timestamp
                0x3f, 0xf8, 0x0, 0x0, 0x0, 0x0, 0x0, 0x0, // first value
                0x0, 0x0, 0x0, 0x0, 0x0, 0x0, 0x0, 0x02, // first delta, which is 2
                0x40, 0x2b, 0xf8,
            ],
            1,
        ),
        (
            vec![(128, 1.5), (129, 1.6)],
            vec![
                0x0, 0x0, 0x0, 0x0, 0x0, 0x0, 0x0, 0x80, // first timestamp
                0x3f, 0xf8, 0x0, 0x0, 0x0, 0x0, 0x0, 0x0, // first value
                0x0, 0x0, 0x0, 0x0, 0x0, 0x0, 0x0, 0x01, // first delta, which is 1
                0xdf, 0x86, 0x66, 0x66, 0x66, 0x66, 0x66, 0x68,
            ],
            3,
        ),
    ];

    for (input, output, remaining) in data {
        let mut compactor = GorillaCompactor::new();
        for (t, v) in input {
            compactor.compact(&TimePoint::new(t, v.to_bits()));
        }
        assert_eq!(compactor.bstream.data, output);
        assert_eq!(compactor.bstream.remaining, remaining);
    }
}

#[test]
pub fn test_gorilla_decompaction() {
    let data: Vec<(Vec<u8>, u8, Vec<(u64, f64)>)> = vec![
        (
            vec![
                0x0, 0x0, 0x0, 0x0, 0x0, 0x0, 0x0, 0x80, // first timestamp
                0x3f, 0xf8, 0x0, 0x0, 0x0, 0x0, 0x0, 0x0, // first value
                0x0, 0x0, 0x0, 0x0, 0x0, 0x0, 0x0, 0x01, // first delta, which is 1
                0x0,
            ],
            1,
            vec![(128, 1.5), (129, 1.5), (130, 1.5), (131, 1.5), (132, 1.5)],
        ),
        (
            vec![
                0x0, 0x0, 0x0, 0x0, 0x0, 0x0, 0x0, 0x64, // first timestamp
                0x3f, 0xf8, 0x0, 0x0, 0x0, 0x0, 0x0, 0x0, // first value
                0x0, 0x0, 0x0, 0x0, 0x0, 0x0, 0x0, 0x02, // first delta, which is 2
                0x40, 0x2b, 0xf8,
            ],
            1,
            vec![(100, 1.5), (102, 1.5), (105, 1.5), (106, 1.5)],
        ),
    ];

    for (i_data, i_remain, tstream) in data {
        let mut decompactor = GorillaDecompactor::new(Bstream::from(i_data, i_remain));
        let mut res: Vec<(u64, f64)> = Vec::new();
        while let Some(tp) = decompactor.next() {
            res.push((tp.timestamp, f64::from_bits(tp.value)));
        }
        assert_eq!(res, tstream);
    }
}

#[test]
pub fn gorilla_round_trip_varied_points() {
    // Exercise every code path: identical values, window reuse, window
    // resets, and each delta-of-delta width.
    let points: Vec<(u64, f64)> = vec![
        (1000, 1.0),
        (1500, 1.0),
        (2000, 2.5),
        (2600, 2.5),
        (2700, -7.25),
        (2701, 1000000.0),
        (70000, 0.0),
        (70001, 0.0),
        (5000000, 123.456),
    ];
    let mut compactor = GorillaCompactor::new();
    for (t, v) in &points {
        compactor.compact(&TimePoint::new(*t, v.to_bits()));
    }
    let mut decompactor = GorillaDecompactor::new(Bstream::from(
        compactor.bstream.data.clone(),
        compactor.bstream.remaining,
    ));
    let mut res: Vec<(u64, f64)> = Vec::new();
    while let Some(tp) = decompactor.next() {
        res.push((tp.timestamp, f64::from_bits(tp.value)));
    }
    assert_eq!(res, points);
}

#[test]
pub fn gorilla_round_trip_single_point() {
    let mut compactor = GorillaCompactor::new();
    compactor.compact(&TimePoint::new(42, 9.75f64.to_bits()));
    let mut decompactor = GorillaDecompactor::new(Bstream::from(
        compactor.bstream.data.clone(),
        compactor.bstream.remaining,
    ));
    let first = decompactor.next().unwrap();
    assert_eq!(first.timestamp, 42);
    assert_eq!(f64::from_bits(first.value), 9.75);
    assert!(decompactor.next().is_none());
}

#[test]
pub fn compactor_round_trip_with_tag() {
    let points: Vec<TimePoint> = vec![
        TimePoint::new(128, 1.5f64.to_bits()),
        TimePoint::new(129, 1.5f64.to_bits()),
        TimePoint::new(131, 2.25f64.to_bits()),
    ];
    let mut compactor = Compactor::new(CompactType::Gorilla);
    let bytes = compactor.compact_vec(points.clone());
    assert_eq!(*bytes.last().unwrap(), 1u8);
    let de = DeCompactor::from(CompactType::Gorilla, bytes).unwrap();
    match de {
        DeCompactor::Gorilla(mut d) => {
            let mut res: Vec<TimePoint> = Vec::new();
            while let Some(tp) = d.next() {
                res.push(tp);
            }
            assert_eq!(res, points);
        }
        _ => panic!("expected the bit-packed decoder"),
    }
}

#[test]
pub fn decompactor_rejects_wrong_tag() {
    let mut compactor = Compactor::new(CompactType::Plain);
    compactor.compact(&TimePoint::new(5, 1.0f64.to_bits()));
    let bytes = compactor.compact_vec(Vec::new());
    assert_eq!(*bytes.last().unwrap(), 3u8);
    let r = DeCompactor::from(CompactType::Gorilla, bytes);
    assert!(matches!(
        r,
        Err(monolith::error::MonolithErr::CompactionErr(
            monolith::error::CompactionErr::CompactionTypeDontMatch(1, 3)
        ))
    ));
}

#[test]
pub fn dod_prefix_lengths() {
    // A zero delta-of-delta takes one bit, a small one ten bits, a medium
    // one nineteen bits.
    let base: Vec<(u64, f64)> = vec![(1000, 1.0), (2000, 1.0)];
    // Third point with the same delta: one extra bit for the timestamp and
    // one for the value.
    let mut c = GorillaCompactor::new();
    for (t, v) in &base {
        c.compact(&TimePoint::new(*t, v.to_bits()));
    }
    let before = c.bstream.bitlen();
    c.compact(&TimePoint::new(3000, 1.0f64.to_bits()));
    assert_eq!(c.bstream.bitlen() - before, 1 + 1);

    // Delta-of-delta of 100: ten bits plus the value bit.
    let mut c = GorillaCompactor::new();
    for (t, v) in &base {
        c.compact(&TimePoint::new(*t, v.to_bits()));
    }
    let before = c.bstream.bitlen();
    c.compact(&TimePoint::new(3100, 1.0f64.to_bits()));
    assert_eq!(c.bstream.bitlen() - before, 10 + 1);

    // Delta-of-delta of 1000: nineteen bits plus the value bit.
    let mut c = GorillaCompactor::new();
    for (t, v) in &base {
        c.compact(&TimePoint::new(*t, v.to_bits()));
    }
    let before = c.bstream.bitlen();
    c.compact(&TimePoint::new(4000, 1.0f64.to_bits()));
    assert_eq!(c.bstream.bitlen() - before, 19 + 1);
}

#[test]
pub fn compressor_output_decodes() {
    let points: Vec<TimePoint> = vec![
        TimePoint::new(10, 0.5f64.to_bits()),
        TimePoint::new(20, 0.5f64.to_bits()),
        TimePoint::new(30, 0.75f64.to_bits()),
    ];
    let compressor = monolith::compression::Compressor::Gorilla;
    let bytes = compressor.compress(points.clone());
    let bs = Bstream::from_bytes(bytes).unwrap();
    let mut d = GorillaDecompactor::new(bs);
    let mut res: Vec<TimePoint> = Vec::new();
    while let Some(tp) = d.next() {
        res.push(tp);
    }
    assert_eq!(res, points);
    assert!(monolith::compression::Compressor::Simple
        .compress(points)
        .is_empty());
}
