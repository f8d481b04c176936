use lz_decompress::decoder::decompress;
use lz_decompress::result::DecompressionResult;

#[test]
fn literal_group_decodes_to_its_bytes() {
    let bs = [0x00, 1, 2, 3, 4, 5, 6, 7, 8];
    assert_eq!(decompress(&bs, 8), Some(vec![1, 2, 3, 4, 5, 6, 7, 8]));
}

#[test]
fn literal_group_ignores_what_follows() {
    let bs = [0x00, 9, 8, 7, 6, 5, 4, 3, 2, 0xff, 0x00];
    assert_eq!(decompress(&bs, 8), Some(vec![9, 8, 7, 6, 5, 4, 3, 2]));
}

#[test]
fn minimal_back_reference_appends_xyx() {
    // literals X, Y, then a reference of length 3, distance 2
    let bs = [0b100, b'X', b'Y', 0x00, 0x02];
    assert_eq!(decompress(&bs, 5), Some(b"XYXYX".to_vec()));
}

#[test]
fn single_byte_window_repeats() {
    // literal A, then a reference of length 5, distance 1
    let bs = [0b10, b'A', 0x08, 0x01];
    assert_eq!(decompress(&bs, 6), Some(b"AAAAAA".to_vec()));
}

#[test]
fn partial_last_tile() {
    // "abc", then length 7 (b0 >> 2 == 4), distance 3
    let bs = [0b1000, b'a', b'b', b'c', 16, 3];
    assert_eq!(decompress(&bs, 10), Some(b"abcabcabca".to_vec()));
}

#[test]
fn length_multiple_of_distance() {
    // "xy", then length 4 (b0 >> 2 == 1), distance 2
    let bs = [0b100, b'x', b'y', 4, 2];
    assert_eq!(decompress(&bs, 6), Some(b"xyxyxy".to_vec()));
}

#[test]
fn longest_reference_at_large_distance() {
    // 1000 literals in 125 groups, then b0 = 0xff: length 66, distance 3 * 256 + 232 = 1000
    let original: Vec<u8> = (0..1000u32).map(|i| (i * 7 % 251) as u8).collect();
    let mut bs = Vec::new();
    for chunk in original.chunks(8) {
        bs.push(0x00);
        bs.extend_from_slice(chunk);
    }
    bs.extend_from_slice(&[0x01, 0xff, 0xe8]);
    let mut expected = original.clone();
    expected.extend_from_slice(&original[..66]);
    assert_eq!(decompress(&bs, 1066), Some(expected));
}

#[test]
fn overshooting_reference_is_cut_to_target() {
    let bs = [0b10, b'A', 0x08, 0x01];
    assert_eq!(decompress(&bs, 3), Some(b"AAA".to_vec()));
}

#[test]
fn decoding_stops_mid_group_at_target() {
    // the second operation would be a reference of distance 0, but the
    // target is reached before it
    let bs = [0b10, b'A', 0x00, 0x00];
    assert_eq!(decompress(&bs, 1), Some(vec![b'A']));
}

#[test]
fn zero_distance_is_rejected() {
    let bs = [0b10, b'A', 0x00, 0x00];
    assert_eq!(decompress(&bs, 4), None);
}

#[test]
fn distance_beyond_output_is_rejected() {
    let bs = [0b10, b'A', 0x00, 0x02];
    assert_eq!(decompress(&bs, 4), None);
}

#[test]
fn leading_reference_is_rejected() {
    let bs = [0x01, 0x00, 0x01];
    assert_eq!(decompress(&bs, 3), None);
}

#[test]
fn reference_cut_off_by_end_of_input_is_rejected() {
    let bs = [0b10, b'A', 0x08];
    assert_eq!(decompress(&bs, 6), None);
}

#[test]
fn stream_shorter_than_target_is_rejected() {
    let bs = [0x00, b'A'];
    assert_eq!(decompress(&bs, 2), None);
}

#[test]
fn empty_input() {
    assert_eq!(decompress(&[], 0), Some(vec![]));
    assert_eq!(decompress(&[], 1), None);
}

#[test]
fn zero_target_reads_nothing() {
    assert_eq!(decompress(&[0x01, 0x00, 0x00], 0), Some(vec![]));
}

#[test]
fn decoding_is_deterministic() {
    let bs = [0b1000, b'a', b'b', b'c', 16, 3, 0x00];
    let first = decompress(&bs, 9);
    let second = decompress(&bs, 9);
    assert_eq!(first, second);
    assert_eq!(first.map(|v| v.len()), Some(9));
}

#[test]
fn smaller_target_gives_prefix() {
    let bs = [0b1000, b'a', b'b', b'c', 16, 3];
    let long = decompress(&bs, 10).unwrap();
    for n in 0..=10 {
        assert_eq!(decompress(&bs, n), Some(long[..n].to_vec()));
    }
}

#[test]
fn result_record_on_success() {
    let bs = [0b10, b'A', 0x08, 0x01];
    let r = DecompressionResult::from_stream(&bs, 6);
    assert!(r.success);
    assert_eq!(r.data, b"AAAAAA".to_vec());
}

#[test]
fn result_record_on_failure() {
    let bs = [0b10, b'A', 0x00, 0x00];
    let r = DecompressionResult::from_stream(&bs, 4);
    assert!(!r.success);
    assert!(r.data.is_empty());
    let f = DecompressionResult::failure();
    assert!(!f.success);
    assert!(f.data.is_empty());
}

/// Greedy encoder for the format, used only to check decoding against it.
fn encode(data: &[u8]) -> Vec<u8> {
    let mut bs = Vec::new();
    let mut i = 0;
    while i < data.len() {
        let control_at = bs.len();
        bs.push(0u8);
        let mut op = 0;
        while op < 8 && i < data.len() {
            let mut best_len = 0;
            let mut best_dist = 0;
            let max_dist = i.min(1023);
            for d in 1..=max_dist {
                let mut len = 0;
                while len < 66 && i + len < data.len() && data[i + len] == data[i - d + len % d] {
                    len += 1;
                }
                if len > best_len {
                    best_len = len;
                    best_dist = d;
                }
            }
            if best_len >= 3 {
                bs[control_at] |= 1 << op;
                bs.push((((best_len - 3) as u8) << 2) | (best_dist >> 8) as u8);
                bs.push((best_dist & 0xff) as u8);
                i += best_len;
            } else {
                bs.push(data[i]);
                i += 1;
            }
            op += 1;
        }
    }
    bs
}

fn sample(n: usize) -> Vec<u8> {
    let mut v = Vec::with_capacity(n);
    let mut state: u32 = 12345;
    while v.len() < n {
        state = state.wrapping_mul(1103515245).wrapping_add(12345);
        match (state >> 16) % 4 {
            0 => v.push((state >> 8) as u8),
            1 => {
                let b = (state >> 20) as u8;
                for _ in 0..(state % 90) {
                    v.push(b);
                }
            }
            2 => {
                for k in 0..(state % 40) {
                    v.push(b"abcde"[(k % 5) as usize]);
                }
            }
            _ => {
                let back = (state as usize % 1500).min(v.len());
                let start = v.len() - back;
                for k in 0..(state % 70) as usize {
                    if back == 0 {
                        break;
                    }
                    let b = v[start + k % back];
                    v.push(b);
                }
            }
        }
    }
    v.truncate(n);
    v
}

#[test]
fn round_trip_with_encoder() {
    for n in [0usize, 1, 65, 10_000] {
        let data = sample(n);
        let bs = encode(&data);
        assert_eq!(decompress(&bs, n), Some(data), "length {}", n);
    }
    let runs: Vec<u8> = vec![7u8; 10_000];
    assert_eq!(decompress(&encode(&runs), runs.len()), Some(runs));
}

#[test]
fn round_trip_with_literals_only() {
    for n in [0usize, 1, 8, 9, 65] {
        let data = sample(n);
        let mut bs = Vec::new();
        for chunk in data.chunks(8) {
            bs.push(0x00);
            bs.extend_from_slice(chunk);
        }
        assert_eq!(decompress(&bs, n), Some(data), "length {}", n);
    }
}
