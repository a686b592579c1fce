use fraud::budget::{is_over, Budget};
use fraud::clusters::ClusterFile;
use fraud::index::{prefault_pages, warmup_query, Index, OpenError, SearchResult, Settings};
use fraud::ivf::insert_best_cluster;
use fraud::layout::{write_header, write_ivf_header};
use fraud::single::Single;
use fraud::writer::{encode_record, IndexWriter, UnknownLabel};
use serde_json::Value;

const PLAIN: Settings = Settings {
    ivf_nprobe: None,
    ivf_full_nprobe: None,
    ivf_repair: None,
    wide: true,
};

fn single(value: f32) -> Single {
    Single { bits: value.to_bits() }
}

fn vector(values: [f32; 14]) -> [Single; 14] {
    values.map(single)
}

fn build_index_from_json(json: &[u8]) -> (Vec<u8>, u64) {
    let (mut writer, mut image) = IndexWriter::start();
    let records: Value = serde_json::from_slice(json).unwrap();
    for record in records.as_array().unwrap() {
        let mut values = [0.0f32; 14];
        for (d, value) in record["vector"].as_array().unwrap().iter().enumerate() {
            values[d] = value.as_f64().unwrap() as f32;
        }
        let label = record["label"].as_str().unwrap();
        image.extend_from_slice(&writer.add_record(&vector(values), label).unwrap());
    }
    let header = writer.finish();
    image[..header.len()].copy_from_slice(&header);
    (image, writer.count)
}

fn score(index: &Index, query: [f32; 14]) -> f32 {
    match index.fraud_score(&vector(query), None) {
        SearchResult::Score(score) => f32::from_bits(score.bits),
        SearchResult::TimedOut => unreachable!("test runs without a deadline"),
    }
}

#[test]
fn builds_index_from_json_array_without_buffering_records() {
    let json = br#"[
      {"vector":[0,0,0,0,0,-1,-1,0,0,0,1,0,0.15,0],"label":"legit"},
      {"vector":[1,1,1,1,1,-1,-1,1,1,1,0,1,0.85,1],"label":"fraud"}
    ]"#;

    let (output, count) = build_index_from_json(&json[..]);

    assert_eq!(count, 2);
    let mut count_bytes = [0u8; 8];
    count_bytes.copy_from_slice(&output[16..24]);
    assert_eq!(u64::from_le_bytes(count_bytes), 2);
    assert_eq!(output[24..40], [128, 128, 128, 128, 128, 0, 0, 128, 128, 128, 255, 128, 147, 128, 0, 0]);
    assert_eq!(output[40..56], [255, 255, 255, 255, 255, 0, 0, 255, 255, 255, 128, 255, 236, 255, 1, 0]);
}

#[test]
fn generated_index_can_be_opened_and_scored() {
    let json = br#"[
      {"vector":[0,0,0,0,0,0,0,0,0,0,0,0,0,0],"label":"legit"},
      {"vector":[0.02,0,0,0,0,0,0,0,0,0,0,0,0,0],"label":"fraud"},
      {"vector":[0.04,0,0,0,0,0,0,0,0,0,0,0,0,0],"label":"fraud"},
      {"vector":[0.06,0,0,0,0,0,0,0,0,0,0,0,0,0],"label":"fraud"},
      {"vector":[0.08,0,0,0,0,0,0,0,0,0,0,0,0,0],"label":"legit"},
      {"vector":[1,1,1,1,1,1,1,1,1,1,1,1,1,1],"label":"fraud"}
    ]"#;
    let (image, _) = build_index_from_json(&json[..]);

    for wide in [true, false] {
        let index = Index::open(&image, Settings { wide, ..PLAIN }).ok().unwrap();
        let score = score(&index, [0.0; 14]);

        assert_eq!(index.len(), 6);
        assert!(!index.is_empty());
        assert_eq!(score, 0.6);
    }
}

#[test]
fn headers_are_as_they_are_laid_out() {
    let mut bytes = vec![7u8];
    write_header(&mut bytes, 0x0102030405060708);
    assert_eq!(bytes, b"\x07RINHA26\0\x02\0\0\0\x0e\0\0\0\x08\x07\x06\x05\x04\x03\x02\x01");
    let mut bytes = Vec::new();
    write_ivf_header(&mut bytes, 3, 4096);
    assert_eq!(bytes, b"RINHA26\0\x03\0\0\0\x0e\0\0\0\x03\0\0\0\0\0\0\0\0\x10\0\0\0\0\0\0");
}

#[test]
fn labels_are_fraud_or_legit() {
    let v = vector([0.5; 14]);
    assert_eq!(encode_record(&v, "fraud").unwrap()[14..], [1, 0]);
    assert_eq!(encode_record(&v, "legit").unwrap()[14..], [0, 0]);
    assert_eq!(encode_record(&v, "other"), Err(UnknownLabel));
    assert_eq!(encode_record(&v, "Fraud"), Err(UnknownLabel));
    let (mut writer, _) = IndexWriter::start();
    assert_eq!(writer.add_record(&v, ""), Err(UnknownLabel));
    assert_eq!(writer.count, 0);
}

fn error(data: &[u8]) -> OpenError {
    match Index::open(data, PLAIN) {
        Ok(_) => panic!("opened"),
        Err(e) => e,
    }
}

#[test]
fn broken_indexes_are_told_apart() {
    let mut exact = Vec::new();
    write_header(&mut exact, 1);
    exact.extend_from_slice(&[0; 16]);
    assert!(Index::open(&exact, PLAIN).is_ok());
    assert_eq!(error(&[]), OpenError::TooShort);
    assert_eq!(error(&exact[..23]), OpenError::TooShort);
    assert_eq!(error(&exact[..39]), OpenError::InvalidExactLength { got: 39, expected: 40 });
    let mut data = exact.clone();
    data[7] = 1;
    assert_eq!(error(&data), OpenError::InvalidMagic);
    let mut data = exact.clone();
    data[12] = 15;
    assert_eq!(error(&data), OpenError::UnsupportedDims(15));
    let mut data = exact.clone();
    data[8] = 4;
    assert_eq!(error(&data), OpenError::UnsupportedVersion(4));
    let mut data = exact.clone();
    data[16..24].fill(0xff);
    assert_eq!(
        error(&data),
        OpenError::InvalidExactLength { got: 40, expected: 24 + 16 * u64::MAX as u128 }
    );

    let mut ivf = Vec::new();
    write_ivf_header(&mut ivf, 0, 1);
    assert_eq!(error(&ivf[..31]), OpenError::IvfTooShort);
    assert_eq!(error(&ivf), OpenError::InvalidIvfLength { got: 32, expected: 160 });
    for clusters in [0u32, 4097] {
        ivf[24..28].copy_from_slice(&clusters.to_le_bytes());
        assert_eq!(error(&ivf), OpenError::UnsupportedClusterCount(clusters));
    }
}

#[test]
fn an_empty_index_scores_zero() {
    let mut exact = Vec::new();
    write_header(&mut exact, 0);
    let index = Index::open(&exact, PLAIN).ok().unwrap();
    assert!(index.is_empty());
    assert_eq!(score(&index, [0.3; 14]), 0.0);
}

struct Lcg(u32);

impl Lcg {
    fn next(&mut self) -> u32 {
        self.0 = self.0.wrapping_mul(1_664_525).wrapping_add(1_013_904_223);
        self.0 >> 8
    }

    fn unit(&mut self) -> f32 {
        self.next() as f32 / (1u32 << 24) as f32
    }
}

#[test]
fn exact_search_finds_the_nearest() {
    let mut random = Lcg(5);
    for count in [1usize, 3, 4, 5, 6, 7, 50, 131] {
        let (mut writer, mut image) = IndexWriter::start();
        for _ in 0..count {
            let mut values = [0.0f32; 14];
            for value in values.iter_mut() {
                *value = if random.next() % 9 == 0 { -1.0 } else { random.unit() };
            }
            let label = if random.next() % 2 == 0 { "fraud" } else { "legit" };
            image.extend_from_slice(&writer.add_record(&vector(values), label).unwrap());
        }
        let header = writer.finish();
        image[..24].copy_from_slice(&header);
        let wide = Index::open(&image, PLAIN).ok().unwrap();
        let narrow = Index::open(&image, Settings { wide: false, ..PLAIN }).ok().unwrap();
        for _ in 0..20 {
            let mut query = [0.0f32; 14];
            for value in query.iter_mut() {
                *value = random.unit();
            }
            let q = fraud::vector::quantize(&vector(query));
            let mut all: Vec<(u32, usize)> = (0..count)
                .map(|i| {
                    let record = &image[24 + 16 * i..];
                    let dist = (0..14).map(|d| (q[d] as i32 - record[d] as i32).pow(2) as u32).sum();
                    (dist, i)
                })
                .collect();
            all.sort();
            let frauds = all.iter().take(5).filter(|(_, i)| image[24 + 16 * i + 14] == 1).count();
            assert_eq!(score(&wide, query), frauds as f32 / 5.0);
            assert_eq!(score(&narrow, query), frauds as f32 / 5.0);
        }
    }
}

#[test]
fn records_lie_at_their_own_vector() {
    let mut random = Lcg(29);
    let mut vectors = Vec::new();
    for _ in 0..40 {
        let mut values = [0.0f32; 14];
        for value in values.iter_mut() {
            *value = random.unit();
        }
        vectors.push(values);
    }
    for chosen in [0usize, 7, 39] {
        let (mut writer, mut image) = IndexWriter::start();
        for (i, values) in vectors.iter().enumerate() {
            let label = if i == chosen { "fraud" } else { "legit" };
            for _ in 0..5 {
                let record = writer.add_record(&vector(*values), label).unwrap();
                assert_eq!(record[..14], fraud::vector::quantize(&vector(*values)));
                image.extend_from_slice(&record);
            }
        }
        image[..24].copy_from_slice(&writer.finish());
        let index = Index::open(&image, PLAIN).ok().unwrap();
        assert_eq!(index.len(), 200);
        for (i, values) in vectors.iter().enumerate() {
            assert_eq!(score(&index, *values), if i == chosen { 1.0 } else { 0.0 });
        }
    }
}

/// The bytes of a clustered index: per cluster a centroid, and records with labels.
fn ivf_image(clusters: &[([f32; 14], Vec<([i16; 14], u8)>)]) -> Vec<u8> {
    let count: usize = clusters.iter().map(|(_, records)| records.len()).sum();
    let mut image = Vec::new();
    write_ivf_header(&mut image, count as u64, clusters.len() as u32);
    for (centroid, _) in clusters {
        for value in centroid {
            image.extend_from_slice(&value.to_le_bytes());
        }
    }
    let mut offset = 0u64;
    image.extend_from_slice(&offset.to_le_bytes());
    for (_, records) in clusters {
        offset += records.len() as u64;
        image.extend_from_slice(&offset.to_le_bytes());
    }
    for upper in [false, true] {
        for (_, records) in clusters {
            for d in 0..14 {
                let column = records.iter().map(|(r, _)| r[d]);
                let corner = if upper { column.max() } else { column.min() };
                image.extend_from_slice(&corner.unwrap_or(0).to_le_bytes());
            }
        }
    }
    for (_, records) in clusters {
        for (components, label) in records {
            for value in components {
                image.extend_from_slice(&value.to_le_bytes());
            }
            image.extend_from_slice(&[*label, 0, 0, 0]);
        }
    }
    image
}

/// A straightforward search in hardware arithmetic.
fn reference_score(
    clusters: &[([f32; 14], Vec<([i16; 14], u8)>)],
    query: [f32; 14],
    nprobe: usize,
    full: usize,
    repair: bool,
) -> f32 {
    let q = fraud::vector::quantize_i16(&vector(query));
    let count: usize = clusters.iter().map(|(_, records)| records.len()).sum();
    let mut order: Vec<(f32, usize)> = clusters
        .iter()
        .enumerate()
        .map(|(i, (centroid, _))| {
            let mut total = 0.0f32;
            for d in 0..14 {
                let delta = query[d] - centroid[d];
                total += delta * delta;
            }
            (total, i)
        })
        .collect();
    order.sort_by(|a, b| a.partial_cmp(b).unwrap());
    let mut best: Vec<(f32, u8)> = Vec::new();
    let scan = |best: &mut Vec<(f32, u8)>, c: usize| {
        for (components, label) in &clusters[c].1 {
            let mut accum = 0.0f32;
            for d in 0..14 {
                let diff = q[d] as f32 - components[d] as f32;
                accum = diff.mul_add(diff, accum);
            }
            let at = best.iter().position(|(d, _)| accum < *d).unwrap_or(best.len());
            best.insert(at, (accum, *label));
            best.truncate(5);
        }
    };
    let frauds = |best: &Vec<(f32, u8)>| best.iter().filter(|(_, l)| *l == 1).count();
    let mut visited = vec![false; clusters.len()];
    for (_, c) in &order[..nprobe] {
        visited[*c] = true;
        scan(&mut best, *c);
    }
    if full > nprobe && (frauds(&best) == 2 || frauds(&best) == 3) {
        for (_, c) in &order[nprobe..full] {
            visited[*c] = true;
            scan(&mut best, *c);
        }
    }
    if repair {
        for c in 0..clusters.len() {
            let mut bound = 0.0f32;
            for d in 0..14 {
                let column = clusters[c].1.iter().map(|(r, _)| r[d]);
                let low = column.clone().min().unwrap_or(0);
                let high = column.max().unwrap_or(0);
                let delta = if q[d] < low {
                    (low as i32 - q[d] as i32) as f32
                } else if q[d] > high {
                    (q[d] as i32 - high as i32) as f32
                } else {
                    0.0
                };
                bound += delta * delta;
            }
            let last = if best.len() == 5 { best[4].0 } else { f32::INFINITY };
            if !visited[c] && bound <= last {
                scan(&mut best, c);
            }
        }
    }
    let neighbors = count.min(5).min(best.len());
    best[..neighbors].iter().filter(|(_, l)| *l == 1).count() as f32 / 5.0
}

fn random_clusters(random: &mut Lcg, n: usize, size: u32) -> Vec<([f32; 14], Vec<([i16; 14], u8)>)> {
    (0..n)
        .map(|_| {
            let mut centroid = [0.0f32; 14];
            for value in centroid.iter_mut() {
                *value = random.unit();
            }
            let records = (0..random.next() % size)
                .map(|_| {
                    let mut components = [0i16; 14];
                    for d in 0..14 {
                        let near = (centroid[d] - 0.3 + 0.6 * random.unit()).clamp(0.0, 1.0);
                        components[d] = if random.next() % 20 == 0 {
                            -10_000
                        } else {
                            (near * 10_000.0) as i16
                        };
                    }
                    (components, (random.next() % 2) as u8)
                })
                .collect();
            (centroid, records)
        })
        .collect()
}

#[test]
fn clustered_search_is_that_of_hardware_arithmetic() {
    let mut random = Lcg(11);
    for (n, size) in [(1usize, 30u32), (3, 9), (7, 20), (70, 12)] {
        let clusters = random_clusters(&mut random, n, size);
        let image = ivf_image(&clusters);
        for (nprobe, full, repair) in [("1", "1", "0"), ("2", "5", "false"), ("1", "3", "yes"), ("64", "64", "1")] {
            let settings = Settings {
                ivf_nprobe: Some(nprobe),
                ivf_full_nprobe: Some(full),
                ivf_repair: Some(repair),
                wide: false,
            };
            let index = Index::open(&image, settings).ok().unwrap();
            let most = n.min(64);
            let first = nprobe.parse::<usize>().unwrap().clamp(1, most);
            let all = full.parse::<usize>().unwrap().clamp(first, most);
            let fix = matches!(repair, "yes" | "1");
            for _ in 0..40 {
                let mut query = [0.0f32; 14];
                for value in query.iter_mut() {
                    *value = random.unit();
                }
                let expected = reference_score(&clusters, query, first, all, fix);
                assert_eq!(score(&index, query), expected);
            }
        }
    }
}

#[test]
fn confident_decisions_stop_and_others_go_on() {
    // The nearest cluster holds `frauds` of five, and the next one five nearer records.
    for frauds in 0..=5usize {
        let first: Vec<([i16; 14], u8)> = (0..5).map(|i| ([100; 14], (i < frauds) as u8)).collect();
        for label in [0u8, 1] {
            let second = vec![([1i16; 14], label); 5];
            let clusters = vec![([0.0f32; 14], first.clone()), ([0.5f32; 14], second)];
            let image = ivf_image(&clusters);
            let settings = Settings { ivf_nprobe: Some("1"), ivf_full_nprobe: Some("2"), ..PLAIN };
            let index = Index::open(&image, settings).ok().unwrap();
            assert_eq!(index.len(), 10);
            let expected = match frauds {
                2 | 3 => label as f32,
                _ => frauds as f32 / 5.0,
            };
            assert_eq!(score(&index, [0.0; 14]), expected);
            // With every cluster among the first probes nothing nearer is missed.
            let settings = Settings { ivf_nprobe: Some("2"), ..PLAIN };
            let index = Index::open(&image, settings).ok().unwrap();
            assert_eq!(score(&index, [0.0; 14]), label as f32);
            // Neither is it where the boxes of the other clusters are looked at.
            let settings = Settings { ivf_repair: Some("true"), ..PLAIN };
            let index = Index::open(&image, settings).ok().unwrap();
            assert_eq!(score(&index, [0.0; 14]), label as f32);
        }
    }
}

#[test]
fn padded_places_never_enter() {
    // Farther away from the query than the numbers that fill a block.
    let image = ivf_image(&[([0.0f32; 14], vec![([i16::MIN; 14], 1u8); 3])]);
    let index = Index::open(&image, PLAIN).ok().unwrap();
    assert_eq!(score(&index, [1.0; 14]), 0.6);
    let image = ivf_image(&[
        ([0.0f32; 14], vec![([5; 14], 1u8)]),
        ([0.1f32; 14], vec![([i16::MIN; 14], 1u8); 9]),
    ]);
    let settings = Settings { ivf_nprobe: Some("2"), ..PLAIN };
    let index = Index::open(&image, settings).ok().unwrap();
    assert_eq!(score(&index, [1.0; 14]), 1.0);
}

#[test]
fn cluster_offsets_are_checked() {
    let clusters = random_clusters(&mut Lcg(3), 3, 9);
    let image = ivf_image(&clusters);
    assert!(Index::open(&image, PLAIN).is_ok());
    let at = 32 + 56 * 3;
    let count = u64::from_le_bytes(image[16..24].try_into().unwrap());
    for (place, value) in [(0, u64::MAX), (3, count + 1), (3, 0), (1, count + 1)] {
        let mut broken = image.clone();
        broken[at + 8 * place..at + 8 * place + 8].copy_from_slice(&value.to_le_bytes());
        if value == 0 && count == 0 {
            continue;
        }
        assert_eq!(error(&broken), OpenError::InvalidClusterOffsets, "{place} {value}");
    }
}

#[test]
fn budgets_end_a_search() {
    // One cluster of 200 blocks near the query, and one of 100 blocks behind it.
    let near: Vec<([i16; 14], u8)> = (0..1_600).map(|i| ([i as i16; 14], (i < 2) as u8)).collect();
    let far: Vec<([i16; 14], u8)> = (0..800).map(|i| ([(800 - i) as i16; 14], 1)).collect();
    let clusters = vec![([0.0f32; 14], near), ([0.5f32; 14], far)];
    let image = ivf_image(&clusters);
    let settings = Settings { ivf_nprobe: Some("1"), ivf_full_nprobe: Some("2"), ..PLAIN };
    let index = Index::open(&image, settings).ok().unwrap();
    let query = vector([0.0; 14]);
    let ask = |allowed: u64| match index.search(&query, &mut Budget::questions(allowed)) {
        SearchResult::Score(score) => Some(f32::from_bits(score.bits)),
        SearchResult::TimedOut => None,
    };
    // Four questions in the first cluster, and as two of five mark fraud, two in the second; a
    // yes to any of them comes to nothing.
    for allowed in 0..6 {
        assert_eq!(ask(allowed), None);
    }
    assert_eq!(ask(6), Some(0.8));
    assert_eq!(ask(1_000), Some(0.8));
    assert_eq!(
        match index.fraud_score(&query, None) {
            SearchResult::Score(score) => f32::from_bits(score.bits),
            SearchResult::TimedOut => panic!("no deadline"),
        },
        0.8
    );

    let repairing = Settings { ivf_repair: Some("TRUE"), ..PLAIN };
    let index = Index::open(&image, repairing).ok().unwrap();
    let ask = |allowed: u64| match index.search(&query, &mut Budget::questions(allowed)) {
        SearchResult::Score(score) => Some(f32::from_bits(score.bits)),
        SearchResult::TimedOut => None,
    };
    assert_eq!(ask(4), None);
    assert_eq!(ask(6), Some(0.8));

    let (mut writer, mut exact) = IndexWriter::start();
    for _ in 0..5 {
        exact.extend_from_slice(&writer.add_record(&query, "fraud").unwrap());
    }
    exact[..24].copy_from_slice(&writer.finish());
    let index = Index::open(&exact, PLAIN).ok().unwrap();
    assert!(matches!(index.search(&query, &mut Budget::questions(0)), SearchResult::TimedOut));
    assert!(matches!(index.search(&query, &mut Budget::questions(1)), SearchResult::Score(_)));
    assert!(matches!(index.search(&query, &mut Budget::unlimited()), SearchResult::Score(_)));
}

#[test]
fn deadlines_are_measured_by_the_clock() {
    let records: Vec<([i16; 14], u8)> = (0..4_000).map(|i| ([i as i16; 14], 1)).collect();
    let image = ivf_image(&[([0.0f32; 14], records)]);
    let index = Index::open(&image, PLAIN).ok().unwrap();
    let query = vector([0.0; 14]);
    assert!(matches!(index.fraud_score(&query, Some(0)), SearchResult::TimedOut));
    assert!(is_over(1_001, 1_000));
    assert!(!is_over(1_000, 1_000));
    assert!(matches!(
        index.fraud_score(&query, Some(3_600_000_000_000)),
        SearchResult::Score(Single { bits: 0x3f80_0000 })
    ));
}

#[test]
fn boxes_bound_distances() {
    let mut random = Lcg(23);
    let clusters = random_clusters(&mut random, 5, 40);
    let image = ivf_image(&clusters);
    let count = clusters.iter().map(|(_, records)| records.len()).sum();
    let file = ClusterFile { data: &image, count, cluster_count: 5 };
    for _ in 0..50 {
        let mut query = [0i16; 14];
        for value in query.iter_mut() {
            *value = (random.next() % 10_001) as i16;
        }
        for (c, (_, records)) in clusters.iter().enumerate() {
            let bound = file.bbox_lower_bound(&query, c);
            let rounded = file.bbox_lower_bound_f32(&query, c);
            assert!((rounded as f64 - bound as f64).abs() <= bound as f64 * 1e-6);
            for (components, _) in records {
                let dist: u64 = (0..14)
                    .map(|d| (query[d] as i64 - components[d] as i64).pow(2) as u64)
                    .sum();
                assert!(bound <= dist);
            }
        }
        assert_eq!(file.cluster_offset(5) as usize, count);
    }
}

#[test]
fn clusters_are_ranked_with_care_for_odd_distances() {
    let mut dists = [single(f32::INFINITY); 64];
    let mut ids = [0usize; 64];
    for (dist, id) in [(3.0f32, 1), (1.0, 2), (f32::INFINITY, 3), (2.0, 4), (1.0, 5), (f32::NAN, 6)] {
        insert_best_cluster(single(dist), id, 3, &mut dists, &mut ids);
    }
    assert_eq!(ids[..4], [2, 5, 6, 0]);
    assert!(dists[2].check_nan());
    insert_best_cluster(single(1.5), 7, 3, &mut dists, &mut ids);
    assert_eq!(ids[..4], [2, 5, 7, 0]);
}

#[test]
fn warmup_touches_and_queries() {
    assert_eq!(prefault_pages(&[]), 0);
    assert_eq!(prefault_pages(&[5]), 0);
    let mut bytes = vec![0u8; 10_000];
    bytes[0] = 1;
    bytes[4_096] = 2;
    bytes[8_192] = 4;
    bytes[9_999] = 8;
    bytes[100] = 64;
    assert_eq!(prefault_pages(&bytes), 15);

    let mut state: u32 = 0x12345678;
    let (query, next) = warmup_query(state);
    for value in query {
        state = state.wrapping_mul(1664525).wrapping_add(1013904223);
        assert_eq!(value.bits, ((state >> 8) as f32 / (1u32 << 24) as f32).to_bits());
    }
    assert_eq!(next, state);

    let (mut writer, mut image) = IndexWriter::start();
    for _ in 0..5 {
        image.extend_from_slice(&writer.add_record(&query, "fraud").unwrap());
    }
    image[..24].copy_from_slice(&writer.finish());
    let index = Index::open(&image, PLAIN).ok().unwrap();
    assert_eq!(index.warmup().bits, 512.0f32.to_bits());
}
