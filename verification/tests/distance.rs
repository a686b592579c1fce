use fraud::block::block_distance_8;
use fraud::distance::{
    distance_mask_i16_avx2, horizontal_sum_i32x4_to_u64, horizontal_sum_i32x8_to_u64,
    load_query_i16_avx2, squared_distance, squared_distance_i16_avx2,
    squared_distance_i16_early_exit_avx2, squared_distance_i16_pair_avx2,
    squared_distance_pair_avx2, BLOCK_DIMS_LEN, BLOCK_RECORDS,
};
use fraud::layout::{DIMS, IVF_LABEL_OFFSET, IVF_RECORD_LEN};
use fraud::topk::{fraud_count, insert_best, insert_best_u64, score_from_labels};

#[test]
fn block_distance_8_matches_scalar() {
    // 8 records, 14 dims each, contrived spread of values.
    let records: [[i16; DIMS]; 8] = [
        [10_000, 5_000, -1_000, 200, 30, 7, 8, 9, 10, 11, 12, 13, 14, 15],
        [9_000, 4_000, -2_000, 300, 40, 8, 9, 10, 11, 12, 13, 14, 15, 16],
        [-10_000, 0, 10_000, -500, 999, 1, 2, 3, 4, 5, 6, 7, 8, 9],
        [0; DIMS],
        [1; DIMS],
        [i16::MAX, i16::MAX, 0, 0, 0, 0, 0, 0, 0, 0, 0, 0, 0, 0],
        [-32_000, 32_000, -32_000, 32_000, -32_000, 32_000, -32_000, 32_000, 0, 0, 0, 0, 0, 0],
        [123, 456, 789, 1011, 1213, 1415, 1617, 1819, 2021, 2223, 2425, 2627, 2829, 3031],
    ];
    let mut block_dims = [0i16; BLOCK_DIMS_LEN];
    for r in 0..BLOCK_RECORDS {
        for d in 0..DIMS {
            block_dims[d * BLOCK_RECORDS + r] = records[r][d];
        }
    }
    let query: [i16; DIMS] = [5_555, 2_500, 1_000, 0, 100, 4, 5, 5, 6, 7, 8, 9, 10, 11];

    let actual = block_distance_8(&block_dims, &query).map(|d| d as f32);

    for r in 0..BLOCK_RECORDS {
        let expected: f32 = (0..DIMS)
            .map(|d| {
                let diff = query[d] as f32 - records[r][d] as f32;
                diff * diff
            })
            .sum();
        // f32 has 23-bit mantissa, max distance ~1.5e10; tolerate tiny ULP error.
        let tol = expected.abs() * 1e-4 + 1.0;
        assert!(
            (actual[r] - expected).abs() <= tol,
            "record {r}: actual={actual:?}[{r}]={a} expected={expected} tol={tol}",
            a = actual[r]
        );
    }
}

#[test]
fn block_distances_are_those_of_fused_hardware_arithmetic() {
    let mut state: u32 = 7;
    let mut next = || {
        state = state.wrapping_mul(1_664_525).wrapping_add(1_013_904_223);
        (state >> 16) as u16 as i16
    };
    for round in 0..5_000 {
        let mut block = [0i16; BLOCK_DIMS_LEN];
        for value in block.iter_mut() {
            *value = if round % 3 == 0 { next() } else { next() % 10_001 };
        }
        let mut query = [0i16; DIMS];
        for value in query.iter_mut() {
            *value = if round % 2 == 0 { next() } else { next() % 10_001 };
        }
        let dists = block_distance_8(&block, &query);
        for r in 0..BLOCK_RECORDS {
            let mut accum = 0.0f32;
            for d in 0..DIMS {
                let diff = query[d] as f32 - block[d * BLOCK_RECORDS + r] as f32;
                accum = diff.mul_add(diff, accum);
            }
            assert_eq!(dists[r] as f32, accum);
            assert_eq!(dists[r], accum as u64);
        }
    }
}

#[test]
fn avx2_i16_distance_ignores_label_lane() {
    let query = [10_000, 0, -10_000, 500, 900, 1, 2, 3, 4, 5, 6, 7, 8, 9];
    let mut candidate = [0u8; IVF_RECORD_LEN];
    let values: [i16; DIMS] = [9_000, 1, -9_000, 400, 800, 9, 8, 7, 6, 5, 4, 3, 2, 1];
    for (dim, value) in values.iter().enumerate() {
        let offset = dim * size_of::<i16>();
        candidate[offset..offset + 2].copy_from_slice(&value.to_le_bytes());
    }
    candidate[IVF_LABEL_OFFSET] = 255;

    let distance = squared_distance_i16_avx2(
        &load_query_i16_avx2(&query),
        &distance_mask_i16_avx2(),
        &candidate,
    );
    let expected = query
        .iter()
        .zip(values)
        .map(|(a, b)| {
            let delta = *a as i32 - b as i32;
            (delta * delta) as u64
        })
        .sum::<u64>();

    assert_eq!(distance, expected);
}

#[test]
fn horizontal_sum_handles_i32_overflow() {
    // Each madd lane near i32 max; total > 2^31 to force a wrap if any
    // intermediate add stayed in i32.
    let query: [i16; 14] = [32000; 14];
    let candidate = [0u8; IVF_RECORD_LEN];
    // candidate vector is all zeros — squared diffs = 32000^2 per dim.
    let distance = squared_distance_i16_avx2(
        &load_query_i16_avx2(&query),
        &distance_mask_i16_avx2(),
        &candidate,
    );
    let expected: u64 = (0..DIMS as u64).map(|_| (32_000i64 * 32_000i64) as u64).sum();
    assert_eq!(distance, expected);

    // Same value through the paired path.
    let mut pair = [0u8; IVF_RECORD_LEN * 2];
    pair[..IVF_RECORD_LEN].copy_from_slice(&candidate);
    pair[IVF_RECORD_LEN..].copy_from_slice(&candidate);
    let pair_dist = squared_distance_i16_pair_avx2(
        &load_query_i16_avx2(&query),
        &distance_mask_i16_avx2(),
        &pair,
    );
    assert_eq!(pair_dist, [expected, expected]);
}

#[test]
fn early_exit_matches_full_distance_when_threshold_is_max() {
    let query: [i16; DIMS] = [10_000, 0, -10_000, 500, 900, 1, 2, 3, 4, 5, 6, 7, 8, 9];
    let mut candidate = [0u8; IVF_RECORD_LEN];
    let values: [i16; DIMS] = [9_000, 1, -9_000, 400, 800, 9, 8, 7, 6, 5, 4, 3, 2, 1];
    for (dim, value) in values.iter().enumerate() {
        let offset = dim * size_of::<i16>();
        candidate[offset..offset + 2].copy_from_slice(&value.to_le_bytes());
    }
    candidate[IVF_LABEL_OFFSET] = 1;

    let q = load_query_i16_avx2(&query);
    let m = distance_mask_i16_avx2();
    let full = squared_distance_i16_avx2(&q, &m, &candidate);
    let early_no_exit = squared_distance_i16_early_exit_avx2(&q, &m, &candidate, u64::MAX);
    assert_eq!(early_no_exit, full);
}

#[test]
fn early_exit_returns_max_when_lower_half_exceeds_threshold() {
    // Heavy deltas in dims 0-7 so even the lower-half partial sum is large.
    let query: [i16; DIMS] = [30_000; DIMS];
    let mut candidate = [0u8; IVF_RECORD_LEN];
    // candidate stays zero -> lower-half sum = 8 * 30000^2 = 7.2e9.
    candidate[IVF_LABEL_OFFSET] = 0;

    let q = load_query_i16_avx2(&query);
    let m = distance_mask_i16_avx2();
    let early = squared_distance_i16_early_exit_avx2(&q, &m, &candidate, 1_000_000);
    assert_eq!(early, u64::MAX);
    assert_eq!(
        squared_distance_i16_early_exit_avx2(&q, &m, &candidate, 7_200_000_001),
        14 * 900_000_000
    );
    // What equals the threshold does not exceed it.
    assert_eq!(
        squared_distance_i16_early_exit_avx2(&q, &m, &candidate, 7_200_000_000),
        14 * 900_000_000
    );
    assert_eq!(
        squared_distance_i16_early_exit_avx2(&q, &m, &candidate, 7_199_999_999),
        u64::MAX
    );
    let mut ten = [0i16; DIMS];
    ten[0] = 10;
    let q = load_query_i16_avx2(&ten);
    assert_eq!(squared_distance_i16_early_exit_avx2(&q, &m, &candidate, 100), 100);
    assert_eq!(squared_distance_i16_early_exit_avx2(&q, &m, &candidate, 99), u64::MAX);
}

#[test]
fn lanes_wrap_like_registers() {
    // 30000 - (-30000) does not fit 16 bits and comes out as -5536.
    let mut candidate = [0u8; IVF_RECORD_LEN];
    candidate[0..2].copy_from_slice(&(-30_000i16).to_le_bytes());
    let mut query = [0i16; DIMS];
    query[0] = 30_000;
    let q = load_query_i16_avx2(&query);
    let m = distance_mask_i16_avx2();
    assert_eq!(squared_distance_i16_avx2(&q, &m, &candidate), 5_536 * 5_536);
    assert_eq!(q[14..], [0, 0]);
    assert_eq!(m[13..], [-1, 0, 0]);
    let half = [0x4000i16; 16];
    assert_eq!(squared_distance_i16_avx2(&q, &half, &[0xff; IVF_RECORD_LEN]), {
        let first = (30_000i64 - 0x4000) * (30_000 - 0x4000);
        (first + 15 * 0x4000 * 0x4000) as u64
    });
    assert_eq!(horizontal_sum_i32x4_to_u64([u32::MAX; 4]), 4 * u32::MAX as u64);
    assert_eq!(horizontal_sum_i32x8_to_u64([1, 2, 3, 4], [u32::MAX; 4]), 10 + 4 * u32::MAX as u64);
}

#[test]
fn byte_distances_skip_the_label() {
    let mut query = [0u8; 16];
    query[..14].copy_from_slice(&[255, 0, 128, 1, 2, 3, 4, 5, 6, 7, 8, 9, 10, 11]);
    let mut records = [200u8; 32];
    records[..14].copy_from_slice(&[0, 255, 128, 1, 2, 3, 4, 5, 6, 7, 8, 9, 10, 10]);
    assert_eq!(squared_distance(&query, &records), 2 * 255 * 255 + 1);
    let second: u32 = query[..14].iter().map(|q| (*q as i32 - 200).pow(2) as u32).sum();
    assert_eq!(squared_distance_pair_avx2(&query, &records), [2 * 255 * 255 + 1, second]);
    query[15] = 3;
    assert_eq!(squared_distance(&query, &records), 2 * 255 * 255 + 10);
}

#[test]
fn nearest_entries_stay_in_order() {
    let mut dists = [u32::MAX; 5];
    let mut labels = [0u8; 5];
    for (dist, label) in [(9, 1), (3, 2), (9, 3), (1, 4), (3, 5), (3, 6), (20, 7), (9, 8)] {
        insert_best(dist, label, &mut dists, &mut labels);
    }
    assert_eq!(dists, [1, 3, 3, 3, 9]);
    assert_eq!(labels, [4, 2, 5, 6, 1]);

    let mut dists = [u64::MAX; 5];
    let mut labels = [0u8; 5];
    insert_best_u64(u64::MAX, 1, &mut dists, &mut labels);
    insert_best_u64(7, 1, &mut dists, &mut labels);
    insert_best_u64(5, 0, &mut dists, &mut labels);
    insert_best_u64(7, 9, &mut dists, &mut labels);
    assert_eq!(dists, [5, 7, 7, u64::MAX, u64::MAX]);
    assert_eq!(labels, [0, 1, 9, 0, 0]);
}

#[test]
fn fraud_labels_vote() {
    assert_eq!(fraud_count(&[1, 0, 1, 2, 1]), 3);
    for (count, labels, score) in [
        (5, [1, 0, 1, 0, 1], 0.6f32),
        (1_000, [1, 1, 1, 1, 1], 1.0),
        (2, [1, 0, 1, 1, 1], 0.2),
        (0, [1, 1, 1, 1, 1], 0.0),
        (9, [2, 3, 0, 0, 1], 0.2),
    ] {
        assert_eq!(score_from_labels(count, &labels).bits, score.to_bits());
    }
}
