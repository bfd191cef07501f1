use rushnsw::beam;
use rushnsw::hnsw::Hnsw;
use rushnsw::insertion::{search_layer, walk_down, Scratch};
use rushnsw::links::{Links, NONE};
use rushnsw::metric::{Corpus, Near};
use rushnsw::par;
use rushnsw::q8::DistI8;
use rushnsw::settle::settle;
use rushnsw::store::Plan;
use rushnsw::synth;
use rushnsw::truth;
use rushnsw::visited::Visited;
use rushnsw::web::Still;

const N: usize = 4000;
const DIM: usize = 64;
const NQ: usize = 100;
const K: usize = 10;

fn key(d: f32) -> u32 {
    if d.is_finite() {
        d.to_bits()
    } else {
        u32::MAX
    }
}

fn l2sq(a: &[f32], b: &[f32]) -> u32 {
    key(a.iter().zip(b).map(|(x, y)| (x - y) * (x - y)).sum())
}

fn gauss(u: u32, v: u32) -> f32 {
    let u = (u as f32 / 16777216.0).max(1e-7);
    let v = v as f32 / 16777216.0;
    (-2.0 * u.ln()).sqrt() * (std::f32::consts::TAU * v).cos()
}

fn lowrank(n: usize, dim: usize, rank: usize, seed: u64) -> Vec<f32> {
    let root = (rank as f32).sqrt();
    synth::lowrank(n, dim, rank, seed, 0.0, &gauss, &|s, l, p| s + l * p, &|x| x / root)
}

fn level(m: usize) -> impl Fn(u64) -> usize {
    let ml = 1.0 / (m as f64).ln();
    move |u: u64| {
        let u = u as f64 / (1u64 << 53) as f64;
        (-u.max(1e-12).ln() * ml).floor() as usize
    }
}

fn size(x: f32) -> u32 {
    if x.is_nan() {
        0
    } else {
        x.abs().to_bits()
    }
}

fn corpus_unit(x: f32, peak: u32) -> i32 {
    let inv = 127.0 / f32::from_bits(peak).max(1e-12);
    (x * inv).round() as i32
}

fn query_unit(x: f32, peak: u32) -> i32 {
    let inv = 1.0 / (f32::from_bits(peak).max(1e-12) / 127.0);
    (x * inv).round() as i32
}

fn exact(data: &[f32], queries: &[f32]) -> Vec<Vec<u32>> {
    (0..NQ)
        .map(|i| {
            truth::truth(data, DIM, &queries[i * DIM..(i + 1) * DIM], K, &l2sq)
                .iter()
                .map(|x| x.0)
                .collect()
        })
        .collect()
}

fn recall<D: Fn(&[f32], &[f32]) -> u32, L: Fn(u64) -> usize>(
    idx: &mut Hnsw<f32, D, L>,
    queries: &[f32],
    t: &[Vec<u32>],
    ef: usize,
) -> f64 {
    let got: Vec<Vec<u32>> = (0..NQ)
        .map(|i| {
            idx.search(&queries[i * DIM..(i + 1) * DIM], K, ef).iter().map(|x| x.0).collect()
        })
        .collect();
    truth::recall(&got, t) as f64 / (NQ * K) as f64
}

#[test]
fn parallel_build_matches_sequential_recall() {
    let data = lowrank(N, DIM, 16, 7);
    let queries = lowrank(NQ, DIM, 16, 7);
    let gt = exact(&data, &queries);

    let mut seq = Hnsw::new(DIM, 16, 200, 1234, l2sq, level(16));
    for i in 0..N {
        seq.insert(&data[i * DIM..(i + 1) * DIM]);
    }
    let rs = recall(&mut seq, &queries, &gt, 64);

    let mut p = par::build(data.clone(), DIM, 16, 200, 1234, l2sq, level(16));
    let rp = recall(&mut p, &queries, &gt, 64);

    assert!(rs > 0.90, "sequential baseline broken: {rs}");
    // Two nodes that join at the same instant cannot see one another, so the two
    // recalls need not be equal.
    assert!(rp > rs - 0.02, "parallel recall {rp} regressed vs sequential {rs}");
}

#[test]
fn parallel_graph_is_structurally_sound() {
    let data = lowrank(N, DIM, 16, 7);
    let p = par::build(data, DIM, 16, 200, 1234, l2sq, level(16));
    let (sum, min, orphans) = p.degree_stats();
    let mean = sum as f64 / p.len() as f64;
    assert_eq!(orphans, 0, "some nodes have no level-0 edges: lost writes");
    assert!(min >= 1, "min degree {min}");
    assert!(mean > 8.0 && mean <= 32.0, "mean degree {mean} outside [8, m0]");
    assert_eq!(p.len(), N);
}

#[test]
fn parallel_build_is_deterministic_across_thread_counts() {
    let data = lowrank(1500, DIM, 16, 3);
    let one = rayon::ThreadPoolBuilder::new().num_threads(1).build().unwrap();
    let four = rayon::ThreadPoolBuilder::new().num_threads(4).build().unwrap();
    let a = one.install(|| par::build(data.clone(), DIM, 16, 100, 555, l2sq, level(16)));
    let b = four.install(|| par::build(data, DIM, 16, 100, 555, l2sq, level(16)));
    assert_eq!(a.levels_fingerprint(), b.levels_fingerprint());
}

#[test]
fn quantized_search_tracks_full_precision() {
    let data = lowrank(N, DIM, 16, 7);
    let queries = lowrank(NQ, DIM, 16, 7);
    let gt = exact(&data, &queries);
    let mut p = par::build(data, DIM, 16, 200, 1234, l2sq, level(16));
    let rf = recall(&mut p, &queries, &gt, 64);
    p.quantize(&size, &corpus_unit, DistI8::Vnni);
    let got: Vec<Vec<u32>> = (0..NQ)
        .map(|i| {
            p.search_q8(&queries[i * DIM..(i + 1) * DIM], K, 64, 4, &query_unit)
                .iter()
                .map(|x| x.0)
                .collect()
        })
        .collect();
    let rq = truth::recall(&got, &gt) as f64 / (NQ * K) as f64;
    // With a fourfold shortlist that is put in order by true distances, traversal
    // on byte codes loses next to nothing.
    assert!(rq > rf - 0.01, "quantized recall {rq} vs full precision {rf}");
}

#[test]
fn one_vector_is_its_own_index() {
    let mut p = par::build(vec![3.0f32, 4.0], 2, 4, 10, 9, l2sq, level(4));
    assert_eq!(p.len(), 1);
    assert_eq!(p.max_level(), par::level_of(9, 0, &level(4)));
    assert_eq!(p.search(&[0.0, 0.0], 3, 8), vec![(0, 25.0f32.to_bits())]);
    assert_eq!(p.degree_stats(), (0, 0, 1));
}

#[test]
fn a_tail_that_makes_no_vector_is_ignored() {
    let p = par::build(vec![1.0f32, 2.0, 3.0, 4.0, 5.0], 2, 4, 10, 1, l2sq, level(4));
    assert_eq!(p.len(), 2);
}

#[test]
fn levels_come_from_seed_and_id() {
    let f = level(16);
    let levels: Vec<u8> = (0..200).map(|i| par::level_of(555, i, &f)).collect();
    let again: Vec<u8> = (0..200).rev().map(|i| par::level_of(555, i, &f)).collect();
    assert!(levels.iter().eq(again.iter().rev()));
    // The first number of the mixed sequence from seed zero.
    assert_eq!(par::level_of(0, 0, &|u| if u == 0xE220A8397B1DCDAF >> 11 { 5 } else { 0 }), 5);
    // No level is above sixteen.
    assert_eq!(par::level_of(0, 0, &|_| 99), 16);
    let data = lowrank(200, 4, 2, 1);
    let p = par::build(data, 4, 16, 20, 555, l2sq, level(16));
    let mut h = 1469598103934665603u64;
    for l in &levels {
        h = (h ^ *l as u64).wrapping_mul(1099511628211);
    }
    assert_eq!(p.levels_fingerprint(), h);
    assert_eq!(p.max_level(), *levels.iter().max().unwrap());
}

#[test]
fn results_of_a_parallel_build_are_true_and_in_order() {
    let data = lowrank(300, 8, 4, 11);
    let mut p = par::build(data.clone(), 8, 16, 300, 3, l2sq, level(16));
    for i in [0usize, 17, 299] {
        let q = &data[i * 8..(i + 1) * 8];
        let best = truth::truth(&data, 8, q, 5, &l2sq);
        let got = p.search(q, 5, 300);
        assert_eq!(got.len(), 5);
        for k in 0..5 {
            let id = got[k].0 as usize;
            assert_eq!(got[k].1, l2sq(q, &data[id * 8..(id + 1) * 8]));
            assert!(got[k].1 >= best[k].1);
            assert!(k == 0 || got[k - 1].1 <= got[k].1);
            assert!(got[..k].iter().all(|x| x.0 != got[k].0));
        }
    }
}

#[test]
fn no_interleaving_loses_a_node() {
    // There is room for every node on every list, so no link is ever given up, and
    // a wide search finds all nodes.
    let (n, dim) = (60usize, 4usize);
    let pool = rayon::ThreadPoolBuilder::new().num_threads(4).build().unwrap();
    for seed in 0..40u64 {
        let data = lowrank(n, dim, 3, seed);
        let mut p = pool.install(|| par::build(data.clone(), dim, 64, n, seed, l2sq, level(4)));
        let q = &data[dim..2 * dim];
        assert_eq!(p.search(q, n, n + 1), truth::truth(&data, dim, q, n, &l2sq));
        assert_eq!(p.degree_stats().2, 0);
    }
}

#[test]
fn a_parallel_build_goes_on_growing() {
    let data = lowrank(60, 8, 4, 2);
    let mut p = par::build(data[..50 * 8].to_vec(), 8, 64, 60, 3, l2sq, level(8));
    for i in 50..60 {
        assert_eq!(p.insert(&data[i * 8..(i + 1) * 8]), i as u32);
    }
    assert_eq!(p.len(), 60);
    assert_eq!(p.search(&data[55 * 8..56 * 8], 1, 61)[0], (55, 0));
    assert_eq!(p.degree_stats().2, 0);
}

fn gap(a: &[i32], b: &[i32]) -> u32 {
    ((a[0] - b[0]) * (a[0] - b[0])) as u32
}

#[test]
fn one_thread_builds_what_insertion_builds() {
    let pool = rayon::ThreadPoolBuilder::new().num_threads(1).build().unwrap();
    for l in 0..3usize {
        for seed in 0..5u64 {
            let (n, dim) = (200usize, 6usize);
            let data = lowrank(n, dim, 3, seed);
            let mut p = pool.install(|| par::build(data.clone(), dim, 3, 8, 1, l2sq, |_| l));
            let mut h = Hnsw::new(dim, 3, 8, 1, l2sq, |_| l);
            for i in 0..n {
                h.insert(&data[i * dim..(i + 1) * dim]);
            }
            assert_eq!(p.degree_stats(), h.degree_stats());
            assert_eq!(p.graph_bytes(), h.graph_bytes());
            assert_eq!(p.levels_fingerprint(), h.levels_fingerprint());
            for i in 0..n {
                let q = &data[i * dim..(i + 1) * dim];
                for ef in [1, 2, 5] {
                    assert_eq!(p.search(q, ef, ef), h.search(q, ef, ef));
                }
            }
        }
    }
}

#[test]
fn a_full_list_is_chosen_afresh() {
    // Node 0 comes to have the neighbours 1 and 2. Then 3 asks for a place on its full
    // list: 1 lies behind 3 and gives way, though it is nearer than 2.
    let pool = rayon::ThreadPoolBuilder::new().num_threads(1).build().unwrap();
    let data = vec![0, 4, -5, 1];
    let mut p = pool.install(|| par::build(data, 1, 1, 10, 1, gap, |_| 0));
    assert_eq!(p.degree_stats(), (7, 1, 0));
    // From 0 a walk to 4 leads through 3.
    assert_eq!(p.search(&[4], 1, 1), vec![(1, 0)]);
    assert_eq!(p.search(&[-5], 1, 1), vec![(2, 0)]);
    assert_eq!(p.search(&[0], 4, 4), vec![(0, 0), (3, 1), (1, 16), (2, 25)]);
}

#[test]
fn every_node_has_a_neighbour() {
    for threads in [1usize, 2, 3, 8] {
        let pool = rayon::ThreadPoolBuilder::new().num_threads(threads).build().unwrap();
        for n in 2..12usize {
            let data: Vec<i32> = (0..n as i32).map(|x| x * x).collect();
            let p = pool.install(|| par::build(data, 1, 1, 1, 5, gap, |u| (u % 3) as usize));
            assert_eq!(p.len(), n);
            assert_eq!(p.degree_stats().2, 0);
            assert!(p.degree_stats().1 >= 1);
        }
    }
}

fn lists(links: &Links) -> Vec<Vec<u32>> {
    let mut out = Vec::new();
    for id in 0..links.len() {
        let mut list = Vec::new();
        links.copy_nbrs(id as u32, 0, &mut list);
        out.push(list);
    }
    out
}

fn bare(levels: &[u8], m: usize) -> Links {
    let mut links = Links::new(2 * m);
    for &l in levels {
        links.add_node(l);
    }
    links
}

#[test]
fn a_node_that_is_alone_is_looked_after() {
    let data = [0, 1, 2];
    let corpus = Corpus { data: &data[..], dim: 1, n: 3, dist: &gap };
    let levels = vec![0u8, 0, 0];
    let plan = Plan { corpus: &corpus, m: 1, ef_construction: 1, levels: &levels };
    let none = vec![false; 3];
    let links = settle(&plan, bare(&levels, 1), &none, 0);
    assert_eq!(lists(&links), vec![vec![1], vec![0, 2], vec![1]]);
    // Nobody is alone any more, and a second pass changes nothing.
    let mut links = settle(&plan, links, &none, 2);
    assert_eq!(lists(&links), vec![vec![1], vec![0, 2], vec![1]]);
    // A node that others link to, and that links to none, is not linked to twice. From
    // 0 a search comes to 1 alone.
    links.set_nbrs(1, 0, &[]);
    let links = settle(&plan, links, &none, 0);
    assert_eq!(lists(&links), vec![vec![1], vec![0], vec![1]]);
}

#[test]
fn a_node_that_is_owed_an_insertion_gets_it() {
    let data = [0, 4, -5, 1];
    let corpus = Corpus { data: &data[..], dim: 1, n: 4, dist: &gap };
    let levels = vec![0u8; 4];
    let plan = Plan { corpus: &corpus, m: 1, ef_construction: 10, levels: &levels };
    let full = vec![vec![3, 2], vec![0, 3], vec![0], vec![0, 1]];
    let links = settle(&plan, bare(&levels, 1), &vec![false, true, true, true], 0);
    assert_eq!(lists(&links), full);
    // Here 3 has never been inserted, though it has a neighbour.
    let mut links = bare(&levels, 1);
    links.set_nbrs(0, 0, &[1, 2]);
    links.set_nbrs(1, 0, &[0]);
    links.set_nbrs(2, 0, &[0]);
    links.set_nbrs(3, 0, &[2]);
    let left = settle(&plan, links, &vec![false; 4], 0);
    assert_eq!(lists(&left), vec![vec![1, 2], vec![0], vec![0], vec![2]]);
    let mended = settle(&plan, left, &vec![false, false, false, true], 0);
    // It chooses 0 and 1, and of these and 2 keeps the two that are chosen once more.
    assert_eq!(lists(&mended), vec![vec![3, 2], vec![0, 3], vec![0], vec![0, 1]]);
    // The entry itself is inserted from the node that reaches highest of the others: 1
    // joins level 1 from 2, and gives 2 up there when 3 comes.
    let levels = vec![0u8, 2, 1, 1];
    let plan = Plan { corpus: &corpus, m: 1, ef_construction: 10, levels: &levels };
    let links = settle(&plan, bare(&levels, 1), &vec![false, true, true, true], 1);
    let mut up = Vec::new();
    links.copy_nbrs(1, 1, &mut up);
    assert_eq!(up, vec![3]);
    links.copy_nbrs(2, 1, &mut up);
    assert_eq!(up, vec![1]);
    links.copy_nbrs(3, 1, &mut up);
    assert_eq!(up, vec![1]);
}

#[test]
fn one_insertion_is_the_same_on_shared_lists_and_alone() {
    let f = level(2);
    for seed in 0..6u64 {
        let (n, dim, m, ef) = (80usize, 4usize, 2usize, 6usize);
        let data = lowrank(n, dim, 3, seed);
        let levels: Vec<u8> = (0..n as u32).map(|i| par::level_of(seed, i, &f)).collect();
        let corpus = Corpus { data: &data[..], dim, n, dist: &l2sq };
        let plan = Plan { corpus: &corpus, m, ef_construction: ef, levels: &levels };
        let mut still = Still::new(bare(&levels, m));
        let mut sc = Scratch::new();
        let mut top = (0u32, levels[0]);
        for id in 1..n as u32 {
            walk_down(&plan, &mut still, &mut sc, id, top);
            if levels[id as usize] > top.1 {
                top = (id, levels[id as usize]);
            }
        }
        assert!(sc.calls > 0);
        let pool = rayon::ThreadPoolBuilder::new().num_threads(1).build().unwrap();
        let mut p = pool.install(|| par::build(data.clone(), dim, m, ef, seed, l2sq, level(2)));
        let l = still.links;
        assert_eq!(p.max_level(), top.1);
        let mut h = Hnsw::from_parts(
            dim, m, ef, data.clone(), l.level0, l.deg0, l.upper, l.levels, top.0, top.1, l2sq,
            level(2),
        );
        assert_eq!(p.degree_stats(), h.degree_stats());
        assert_eq!(p.graph_bytes(), h.graph_bytes());
        for i in 0..n {
            let q = &data[i * dim..(i + 1) * dim];
            for ef in [1, 3, 9] {
                assert_eq!(p.search(q, ef, ef), h.search(q, ef, ef));
            }
        }
    }
}

#[test]
fn no_edge_is_dropped_while_there_is_room() {
    let f = level(2);
    for seed in 0..6u64 {
        let (n, dim, m) = (30usize, 3usize, 30usize);
        let data = lowrank(n, dim, 2, seed);
        let levels: Vec<u8> = (0..n as u32).map(|i| par::level_of(seed, i, &f)).collect();
        let corpus = Corpus { data: &data[..], dim, n, dist: &l2sq };
        let plan = Plan { corpus: &corpus, m, ef_construction: 40, levels: &levels };
        let links = settle(&plan, bare(&levels, m), &vec![true; n], 0);
        let again = settle(&plan, bare(&levels, m), &vec![true; n], 0);
        let list = |l: &Links, id: usize, lev: usize| {
            let mut out = Vec::new();
            l.copy_nbrs(id as u32, lev, &mut out);
            out
        };
        for x in 0..n {
            for lev in 0..=levels[x] as usize {
                assert_eq!(list(&links, x, lev), list(&again, x, lev));
                for y in list(&links, x, lev) {
                    assert!(list(&links, y as usize, lev).contains(&(x as u32)));
                }
            }
            assert!(!list(&links, x, 0).is_empty());
        }
    }
}

#[test]
fn a_search_on_behalf_of_a_node_passes_it_over() {
    // A line of nodes, each linked to the next ones on either side.
    let data = [0, 1, 2, 3, 4, 5];
    let corpus = Corpus { data: &data[..], dim: 1, n: 6, dist: &gap };
    let levels = vec![0u8; 6];
    let plan = Plan { corpus: &corpus, m: 1, ef_construction: 3, levels: &levels };
    let mut links = bare(&levels, 1);
    for i in 0..6u32 {
        let list: Vec<u32> = [i.wrapping_sub(1), i + 1].into_iter().filter(|&x| x < 6).collect();
        links.set_nbrs(i, 0, &list);
    }
    let near = Near { corpus: &corpus, q: &data[4..5] };
    let mut vis = Visited::new();
    let (plain, calls) = beam::search_layer(&links, &mut vis, &near, &[0], 3, 0);
    let mut still = Still::new(links);
    let mut sc = Scratch::new();
    // On behalf of no node of the graph it is the plain search; empty places are passed
    // over.
    let (found, _) = search_layer(&plan, &mut still, &mut sc, &near, &[NONE, 0, NONE], 3, 0, 9);
    assert_eq!(found, plain);
    assert_eq!(sc.calls, calls as u64);
    assert_eq!(plain.iter().map(|c| c.id).collect::<Vec<u32>>(), vec![4, 3, 5]);
    // On behalf of 4 it stops short of 5, to which only 4 leads.
    let (found, _) = search_layer(&plan, &mut still, &mut sc, &near, &[4, 0], 3, 0, 4);
    assert_eq!(found.iter().map(|c| (c.id, c.d)).collect::<Vec<_>>(), vec![(3, 1), (2, 4), (1, 9)]);
    // Nothing to start from, nothing found.
    let (found, _) = search_layer(&plan, &mut still, &mut sc, &near, &[NONE, 4], 3, 0, 4);
    assert!(found.is_empty());
}
