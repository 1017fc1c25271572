use monolith::compaction::{Bstream, BstreamSeeker};

#[test]
pub fn test_write_bstream() {
    let mut bstream = Bstream::new();
    bstream.write(true);
    assert_eq!(0b10000000, bstream.data[0]);
    bstream.write(false);
    assert_eq!(0b10000000, bstream.data[0]);
    assert_eq!(6, bstream.remaining);
    bstream.write(true);
    assert_eq!(0b10100000, bstream.data[0]);
}

#[test]
pub fn test_append_bstream() {
    let data: Vec<(Vec<u8>, u8, Vec<u8>, u8, Vec<u8>, u8)> = vec![
        (
            vec![0b10010010, 0b10000000],
            7,
            vec![0b10000000],
            7,
            vec![0b10010010, 0b11000000],
            6,
        ),
        (
            vec![0b10000000],
            0,
            vec![0b00000000],
            0,
            vec![0b10000000, 0b00000000],
            0,
        ),
        (
            vec![0b00000000],
            4,
            vec![0b11110000, 0b10000000],
            7,
            vec![0b00001111, 0b00001000],
            3,
        ),
        (
            vec![0b00000000],
            4,
            vec![0b11110000, 0b10000100],
            2,
            vec![0b00001111, 0b00001000, 0b01000000],
            6,
        ),
    ];

    for (d1, r1, d2, r2, expect_data, expect_remaining) in data {
        let mut bstream1 = Bstream::from(d1, r1);
        let bstream2 = Bstream::from(d2, r2);
        bstream1.append(&bstream2);
        assert_eq!(expect_data, bstream1.data);
        assert_eq!(expect_remaining, bstream1.remaining)
    }
}

#[test]
pub fn test_write_bits() {
    let data: Vec<((Vec<u8>, u8), ([u8; 8], u8), (Vec<u8>, u8))> = vec![
        ((vec![], 0), (8u64.to_be_bytes(), 4), (vec![0b10000000], 4)),
        ((vec![], 0), (33u64.to_be_bytes(), 6), (vec![0b10000100], 2)),
        (
            (vec![0x02, 64], 5),
            (1u64.to_be_bytes(), 8),
            (vec![0x02, 64, 32], 5),
        ),
    ];

    for ((data, remaining), (v, l), (res_d, res_r)) in data {
        let mut bstream = Bstream { data, remaining };
        bstream.write_bits(v, l);
        assert_eq!(bstream.data, res_d);
        assert_eq!(bstream.remaining, res_r);
    }
}

#[test]
pub fn test_read_next_n_bits() {
    let data: Vec<((Vec<u8>, u8, u8), u8, (Vec<u8>, usize))> = vec![
        (
            (vec![0b01010101, 0b01111111, 0b11000000], 6, 1),
            16,
            (vec![0b10101010, 0b11111111], 16),
        ),
        (
            (vec![0b01111111, 0b11111111, 0b10101010], 0, 10),
            16,
            (vec![0b11111110, 0b10101000], 14),
        ),
        (
            (vec![0b01101101, 0b10110010, 0b10111110], 1, 10),
            16,
            (vec![0b11001010, 0b11111000], 13),
        ),
        (
            (vec![0b01011111, 0b11111111, 0b01100000], 0, 5),
            11,
            (vec![0b11111111, 0b11100000], 11),
        ),
        (
            (vec![0b01100010, 0b01011111], 0, 7),
            6,
            (vec![0b00101100], 6),
        ),
    ];

    for ((data, remaining, cursor), n_bits, (res_data, res_remaining)) in data {
        let mut seeker = BstreamSeeker {
            data: Bstream { data, remaining },
            cursor: cursor as usize,
        };

        let mut v = vec![];
        for _ in 0..res_data.len() {
            v.push(0x00)
        }
        let u = seeker.read_next_n_bit(&mut v, n_bits as usize);
        assert_eq!(v, res_data);
        assert_eq!(u, res_remaining);
    }
}

#[test]
pub fn bstream_serialization_round_trip() {
    let bstream = Bstream::from(vec![0x11, 0x22, 0x33, 0x40], 3);
    let bytes = bstream.as_bytes_vec();
    assert_eq!(bytes, vec![0x11, 0x22, 0x33, 0x40, 3]);
    let read_bstream = Bstream::from_bytes(bytes).unwrap();
    assert_eq!(read_bstream.data, vec![0x11, 0x22, 0x33, 0x40]);
    assert_eq!(read_bstream.remaining, 3);
}

#[test]
pub fn from_bytes_rejects_corrupt_serializations() {
    // A tail counter above 7.
    assert!(Bstream::from_bytes(vec![0x11, 9]).is_err());
    // Free bits that are not zero.
    assert!(Bstream::from_bytes(vec![0x13, 3]).is_err());
    // Empty input.
    assert!(Bstream::from_bytes(vec![]).is_err());
}

#[test]
pub fn cursor_reader_yields_written_bits() {
    // Write a run of bits one by one, then read them back in order.
    let pattern = [true, false, true, true, false, false, true, false, true, true, true];
    let mut bs = Bstream::new();
    for b in pattern {
        bs.write(b);
    }
    assert_eq!(bs.bitlen(), pattern.len());
    let mut seeker = BstreamSeeker::new(bs);
    let mut out = vec![0u8; 2];
    let got = seeker.read_next_n_bit(&mut out, pattern.len());
    assert_eq!(got, pattern.len());
    for (i, b) in pattern.iter().enumerate() {
        let bit = (out[i / 8] >> (7 - (i % 8))) & 1 == 1;
        assert_eq!(bit, *b);
    }
}
