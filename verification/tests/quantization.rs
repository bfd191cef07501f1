use rushnsw::hnsw::Hnsw;
use rushnsw::kmeans::{average_rows, kmeans_subspace};
use rushnsw::pq::{adc_avx512, adc_scalar, best_adc, Pq};
use rushnsw::q8::{brute_topk, DistI8, Q8};
use rushnsw::synth;

fn key(d: f32) -> u32 {
    if d.is_finite() {
        d.to_bits()
    } else {
        u32::MAX
    }
}

fn l2sq(a: &[f32], b: &[f32]) -> f32 {
    let mut s = 0.0;
    for i in 0..a.len() {
        let d = a[i] - b[i];
        s += d * d;
    }
    s
}

fn dist(a: &[f32], b: &[f32]) -> u32 {
    key(l2sq(a, b))
}

fn plus(x: f32, y: f32) -> f32 {
    x + y
}

fn mean(dsub: usize) -> impl Fn(&[f32], &[usize]) -> Vec<f32> + Sync {
    move |a: &[f32], ms: &[usize]| {
        average_rows(a, ms, dsub, 0.0, &plus, &|s, c| s * (1.0 / c as f32))
    }
}

fn gauss(u: u32, v: u32) -> f32 {
    let u = (u as f32 / 16777216.0).max(1e-7);
    let v = v as f32 / 16777216.0;
    (-2.0 * u.ln()).sqrt() * (std::f32::consts::TAU * v).cos()
}

fn lowrank(n: usize, dim: usize, rank: usize, seed: u64) -> Vec<f32> {
    let root = (rank as f32).sqrt();
    synth::lowrank(n, dim, rank, seed, 0.0, &gauss, &|s, l, p| s + l * p, &|x| x / root)
}

fn size(x: f32) -> u32 {
    x.abs().to_bits()
}

fn unit(x: f32, peak: u32) -> i32 {
    (x * (127.0 / f32::from_bits(peak).max(1e-12))).round() as i32
}

fn flat(_: u64) -> usize {
    0
}

#[test]
fn adc_approximates_true_distance() {
    let (dim, n) = (64usize, 2000usize);
    let data = lowrank(n, dim, 16, 5);
    let pq = Pq::train(&data, dim, 8, 10, 2000, 42, &dist, &mean(8));
    let (f, _) = best_adc(true);
    let q = &data[7 * dim..8 * dim];
    let lut = pq.lut(q, &l2sq);

    let mut exact: Vec<(f32, u32)> = (0..n as u32)
        .map(|i| (l2sq(q, &data[i as usize * dim..(i as usize + 1) * dim]), i))
        .collect();
    exact.sort_unstable_by(|a, b| a.0.partial_cmp(&b.0).unwrap());
    let top: Vec<u32> = exact[..50].iter().map(|x| x.1).collect();

    let mut approx: Vec<(f32, u32)> = (0..n as u32)
        .map(|i| (f.sum(&lut, pq.code(i), 256, 0.0, &plus), i))
        .collect();
    approx.sort_unstable_by(|a, b| a.0.partial_cmp(&b.0).unwrap());

    let hits = approx[..10].iter().filter(|x| top.contains(&x.1)).count();
    assert!(hits >= 7, "PQ top-10 kept only {hits}/10 inside exact top-50");
}

#[test]
fn compression_is_what_it_claims() {
    let (dim, n) = (256usize, 500usize);
    let data = lowrank(n, dim, 32, 1);
    let pq = Pq::train(&data, dim, 32, 5, 500, 9, &dist, &mean(8));
    assert_eq!(pq.bytes(), n * 32);
    assert_eq!(data.len() * 4 / pq.bytes(), 32);
}

#[test]
fn a_corpus_is_quantized_by_its_peak() {
    let data = [1.0f32, -2.0, 0.5, 0.0];
    let q = Q8::from_f32(&data, 2, &size, &unit);
    assert_eq!(q.peak, 2.0f32.to_bits());
    assert_eq!(q.codes, vec![64, -127, 32, 0]);
    assert_eq!(q.dim, 2);
    assert_eq!(q.at(1), &[32, 0]);
    assert_eq!(q.bytes(), 4);
    // A query takes the peak of the corpus, and is clamped.
    assert_eq!(q.encode(&[1.0, 50.0, -50.0], &unit), vec![64, 127, -127]);
    let scale = 2.0f32 / 127.0;
    let back = q.to_f32(100, &|d, p| {
        let s = f32::from_bits(p) / 127.0;
        d as f32 * s * s
    });
    assert_eq!(back, 100.0 * scale * scale);
    let empty = Q8::from_f32(&[], 2, &size, &unit);
    assert_eq!((empty.peak, empty.bytes()), (0, 0));
}

#[test]
fn a_row_as_a_query_gets_its_own_code() {
    let (n, dim) = (40usize, 8usize);
    let data = lowrank(n, dim, 3, 11);
    let q = Q8::from_f32(&data, dim, &size, &unit);
    // The other way round divides where `unit` multiplies.
    let other = |x: f32, peak: u32| (x / (f32::from_bits(peak) / 127.0)).round() as i32;
    // Always one too high, and so clamped at the top alone.
    let high = |x: f32, peak: u32| unit(x, peak) + 1;
    for id in 0..n {
        let row = &data[id * dim..(id + 1) * dim];
        let own = q.at(id as u32);
        assert_eq!(q.encode(row, &unit), own);
        for (code, gap) in [(q.encode(row, &other), 1), (q.encode(row, &high), 1)] {
            assert_eq!(code.len(), dim);
            for j in 0..dim {
                assert!(code[j] >= -127);
                assert!((code[j] as i32 - own[j] as i32).abs() <= gap);
            }
            assert!(DistI8::Scalar.dist(&code, own) <= dim as i32);
        }
        let up: Vec<i8> = own.iter().map(|&c| if c < 127 { c + 1 } else { c }).collect();
        assert_eq!(q.encode(row, &high), up);
    }
}

#[test]
fn exhaustive_search_by_codes() {
    let q = Q8 { codes: vec![0, 0, 10, 0, 0, 3, -4, 0], dim: 2, peak: 1 };
    let got = brute_topk(&q, &[0, 0], 3, DistI8::Vnni);
    assert_eq!(got, vec![(0, 0), (2, 9), (3, 16)]);
    assert_eq!(got, brute_topk(&q, &[0, 0], 3, DistI8::Scalar));
    assert_eq!(brute_topk(&q, &[0, 0], 9, DistI8::Scalar).len(), 4);
}

fn index(data: &[f32], dim: usize) -> Hnsw<f32, fn(&[f32], &[f32]) -> u32, fn(u64) -> usize> {
    let mut h: Hnsw<f32, fn(&[f32], &[f32]) -> u32, fn(u64) -> usize> =
        Hnsw::new(dim, 8, 100, 3, dist, flat);
    for v in data.chunks(dim) {
        h.insert(v);
    }
    h
}

#[test]
fn search_by_codes_returns_code_distances() {
    let data = [0.0f32, 1.0, 2.0, 127.0];
    let mut h = index(&data, 1);
    assert!(h.search_q8(&[0.0], 2, 4, 1, &unit).is_empty());
    h.quantize(&size, &unit, DistI8::Scalar);
    assert_eq!(h.q8_peak(), Some(127.0f32.to_bits()));
    assert_eq!(h.q8_bytes(), 4);
    assert_eq!(h.search_q8(&[2.0], 2, 4, 1, &unit), vec![(2, 0), (1, 1)]);
    assert_eq!(h.search_q8(&[2.0], 2, 4, 0, &unit), vec![(2, 0), (1, 1)]);
    let mut empty = Hnsw::new(1, 4, 10, 1, dist, flat);
    empty.quantize(&size, &unit, DistI8::Scalar);
    assert!(empty.search_q8(&[0.0], 3, 5, 2, &unit).is_empty());
}

#[test]
fn reranking_goes_by_true_distances() {
    // The first three vectors share one code, so codes alone cannot tell them apart.
    let data = [0.30f32, 0.20, 0.10, 127.0, 60.0];
    let mut h = index(&data, 1);
    h.quantize(&size, &unit, DistI8::Vnni);
    h.reset_dist_calls();
    let raw = h.search_q8(&[0.0], 2, 5, 1, &unit);
    assert_eq!(raw, vec![(0, 0), (1, 0)]);
    let calls = h.dist_calls();
    let best = h.search_q8(&[0.0], 2, 5, 2, &unit);
    assert_eq!(best, vec![(2, key(0.1 * 0.1)), (1, key(0.2 * 0.2))]);
    // Reranking is not counted.
    assert_eq!(h.dist_calls(), 2 * calls);
    // With every vector on the shortlist the result is the exact one.
    assert_eq!(h.search_q8(&[0.0], 5, 5, 2, &unit), h.search(&[0.0], 5, 5));
}

#[test]
fn search_by_table_reranks_to_the_exact_result() {
    let (n, dim) = (300usize, 8usize);
    let data = lowrank(n, dim, 4, 21);
    let mut h = index(&data, dim);
    let (adc, _) = best_adc(true);
    let sum = |t: &[f32], c: &[u8], k: usize| key(adc.sum(t, c, k, 0.0, &plus));
    assert!(h.search_pq(&data[..dim], 3, 10, 1, &l2sq, &sum).is_empty());
    h.train_pq(4, 5, 200, 7, &dist, &mean(2));
    assert_eq!(h.pq_bytes(), n * 4);
    assert_eq!(h.pq_codebook_bytes(), 256 * 8 * 4);
    assert_eq!(h.pq_lut_bytes(), 4 * 256 * 4);
    for i in [0usize, 100, 299] {
        let q = &data[i * dim..(i + 1) * dim];
        let want = h.search(q, 5, n);
        assert_eq!(h.search_pq(q, 5, 10, n / 5, &l2sq, &sum), want);
        assert_eq!(h.search_pq(q, 5, 64, 1, &l2sq, &sum).len(), 5);
    }
}

#[test]
fn each_byte_names_the_nearest_row() {
    let (n, dim, m) = (400usize, 12usize, 3usize);
    let data = lowrank(n, dim, 5, 8);
    let pq = Pq::train(&data, dim, m, 3, 400, 1, &dist, &mean(4));
    assert_eq!((pq.m, pq.dsub, pq.ksub, pq.dim, pq.n), (3, 4, 256, 12, n));
    for i in 0..n {
        let v = &data[i * dim..(i + 1) * dim];
        for j in 0..m {
            let part = &v[j * 4..(j + 1) * 4];
            let rows = &pq.centroids[j * 256 * 4..(j + 1) * 256 * 4];
            let mut best = 0;
            for c in 1..256 {
                if l2sq(part, &rows[c * 4..(c + 1) * 4]) < l2sq(part, &rows[best * 4..best * 4 + 4])
                {
                    best = c;
                }
            }
            assert_eq!(pq.code(i as u32)[j] as usize, best);
        }
    }
    // Encoding again gives the codes again, one by one and all at once.
    let mut out: Vec<u8> = vec![9; m];
    pq.encode_into(&data[dim..2 * dim], &mut out, &dist);
    assert_eq!(out, pq.code(1));
    assert_eq!(pq.encode_many(&data, &dist), pq.codes);
}

#[test]
fn the_table_holds_every_distance() {
    let data = lowrank(300, 6, 3, 4);
    let pq = Pq::train(&data, 6, 2, 2, 300, 1, &dist, &mean(3));
    let q = &data[30..36];
    let t = pq.lut(q, &l2sq);
    assert_eq!(t.len(), 512);
    for j in 0..2 {
        for c in [0usize, 5, 255] {
            let r = (j * 256 + c) * 3;
            assert_eq!(t[j * 256 + c], l2sq(&q[j * 3..j * 3 + 3], &pq.centroids[r..r + 3]));
        }
    }
    assert_eq!(pq.lut_bytes(), 2048);
    assert_eq!(pq.codebook_bytes(), 512 * 3 * 4);
}

#[test]
fn training_takes_every_so_many_vectors() {
    // With no rounds of training the codebook holds training rows only, and of ten
    // vectors every fifth is one of these.
    let data: Vec<f32> = (0..10).map(|i| i as f32).collect();
    let pq = Pq::train(&data, 1, 1, 0, 2, 3, &dist, &mean(1));
    assert!(pq.centroids.iter().all(|&x| x == 0.0 || x == 5.0));
    assert!(pq.centroids.contains(&0.0) && pq.centroids.contains(&5.0));
}

#[test]
fn clusters_settle_on_their_means() {
    let train = [0.0f32, 2.0, 100.0, 102.0];
    let cent = kmeans_subspace(&dist, &mean(1), &train, 4, 1, 2, 10, 1);
    let mut sorted = cent.clone();
    sorted.sort_by(|a, b| a.partial_cmp(b).unwrap());
    assert_eq!(sorted, vec![1.0, 101.0]);
}

#[test]
fn rows_are_averaged() {
    let a = [1.0f32, 10.0, 2.0, 20.0, 6.0, 60.0];
    assert_eq!(mean(2)(&a, &[0, 2]), vec![3.5, 35.0]);
    assert_eq!(mean(2)(&a, &[1]), vec![2.0, 20.0]);
}

#[test]
fn training_starts_with_distinct_rows() {
    // Two different points and two centroids: each point is one of them.
    let cent = kmeans_subspace(&dist, &mean(1), &[3.0f32, 8.0], 2, 1, 2, 0, 1);
    assert!(cent == vec![3.0, 8.0] || cent == vec![8.0, 3.0]);
    let train: Vec<f32> = (0..20).map(|x| x as f32).collect();
    for seed in 0..50u64 {
        for ksub in 1..=20usize {
            let mut cent = kmeans_subspace(&dist, &mean(1), &train, 20, 1, ksub, 0, seed);
            assert_eq!(cent.len(), ksub);
            assert!(cent.iter().all(|x| train.contains(x)));
            cent.sort_by(|a, b| a.partial_cmp(b).unwrap());
            assert!(cent.windows(2).all(|w| w[0] < w[1]));
        }
    }
    // With more centroids than rows some row has to come again.
    let cent = kmeans_subspace(&dist, &mean(1), &[3.0f32, 8.0], 2, 1, 5, 0, 1);
    assert_eq!(cent.len(), 5);
    assert!(cent.iter().all(|x| *x == 3.0 || *x == 8.0));
}

#[test]
fn one_centroid_is_the_mean() {
    assert_eq!(kmeans_subspace(&dist, &mean(1), &[1.0f32, 3.0], 2, 1, 1, 1, 7), vec![2.0]);
    let train = [1.0f32, 10.0, 2.0, 20.0, 6.0, 60.0];
    for iters in 1..4 {
        assert_eq!(kmeans_subspace(&dist, &mean(2), &train, 3, 2, 1, iters, 9), vec![3.0, 30.0]);
    }
}

#[test]
fn training_never_moves_the_codebook_away() {
    let train: Vec<f32> = (0..60).map(|x| ((x * 37) % 101) as f32).collect();
    let cost = |cent: &[f32]| -> f32 {
        train
            .iter()
            .map(|x| cent.iter().map(|c| (x - c) * (x - c)).fold(f32::INFINITY, f32::min))
            .sum()
    };
    for seed in 0..10u64 {
        let mut before = f32::INFINITY;
        for iters in 0..8 {
            let cent = kmeans_subspace(&dist, &mean(1), &train, 60, 1, 6, iters, seed);
            let now = cost(&cent);
            assert!(now <= before * 1.0001);
            before = now;
        }
    }
}

#[test]
fn a_vector_is_nearest_to_its_own_code() {
    // Whole numbers, so that sums are exact.
    let data: Vec<f32> = (0..60).map(|x| ((x * 29) % 47) as f32).collect();
    let pq = Pq::train(&data, 4, 2, 0, 15, 3, &dist, &mean(2));
    for i in 0..15 {
        let v = &data[i * 4..(i + 1) * 4];
        let mut own = vec![0u8; 2];
        pq.encode_into(v, &mut own, &dist);
        let lut = pq.lut(v, &l2sq);
        let least = adc_scalar(&lut, &own, pq.ksub, 0.0, &plus);
        for a in 0..15u8 {
            for b in 0..15u8 {
                let sum = adc_scalar(&lut, &[a, b], pq.ksub, 0.0, &plus);
                assert!(least <= sum);
                // The sum is the distance from the vector that the code stands for.
                let mut w = pq.centroids[a as usize * 2..a as usize * 2 + 2].to_vec();
                let lo = (pq.ksub + b as usize) * 2;
                w.extend_from_slice(&pq.centroids[lo..lo + 2]);
                assert_eq!(sum, l2sq(v, &w));
            }
        }
    }
}

#[test]
fn rounding_does_not_put_another_code_first() {
    let dim = 40;
    let data = lowrank(60, dim, 6, 4);
    let pq = Pq::train(&data, dim, 20, 3, 60, 9, &dist, &mean(2));
    let mut other = synth::R(3);
    for i in 0..60 {
        let v = &data[i * dim..(i + 1) * dim];
        let mut own = vec![0u8; 20];
        pq.encode_into(v, &mut own, &dist);
        let lut = pq.lut(v, &l2sq);
        let least = adc_scalar(&lut, &own, pq.ksub, 0.0, &plus);
        let wide = adc_avx512(&lut, &own, pq.ksub, 0.0, &plus);
        for _ in 0..50 {
            let code: Vec<u8> =
                (0..20).map(|_| (other.next() >> 8) as usize % pq.ksub).map(|x| x as u8).collect();
            let sum = adc_scalar(&lut, &code, pq.ksub, 0.0, &plus);
            assert!(least <= sum);
            assert!(wide <= adc_avx512(&lut, &code, pq.ksub, 0.0, &plus));
            // Up to rounding, the sum is the distance from what the code stands for.
            let mut w = Vec::new();
            for j in 0..20 {
                let lo = (j * pq.ksub + code[j] as usize) * 2;
                w.extend_from_slice(&pq.centroids[lo..lo + 2]);
            }
            assert!((sum - l2sq(v, &w)).abs() <= 1e-4 * sum);
        }
    }
}
