use rushnsw::level::draw;
use rushnsw::links::Links;
use rushnsw::synth::{lowrank, make_data, R};
use rushnsw::visited::Visited;

#[test]
fn the_stream_is_xorshift_star() {
    let mut r = R(1);
    assert_eq!(r.next(), 0x47E4CE4B896CDD1D);
    assert_eq!(r.0, 0x2000001);
    let mut s = R(1);
    assert_eq!(s.f() as u64, 0x47E4CE4B896CDD1Du64 >> 40);
    assert_eq!(s.0, r.0);
}

#[test]
fn the_stream_never_reaches_zero() {
    let mut r = R(42);
    for _ in 0..10_000 {
        r.next();
        assert_ne!(r.0, 0);
    }
    let mut zero = R(0);
    assert_eq!(zero.next(), 0);
}

#[test]
fn a_sample_takes_two_draws() {
    let mut a = R(5);
    let mut b = R(5);
    let z = a.gauss(&|u, v| (u, v));
    assert_eq!(z, (b.f(), b.f()));
    assert_eq!(a.0, b.0);
}

#[test]
fn a_corpus_of_low_rank_is_a_projection() {
    let (n, dim, rank) = (3usize, 4usize, 2usize);
    let g = |u: u32, v: u32| ((u % 7) as i64) - ((v % 5) as i64);
    let out = lowrank(n, dim, rank, 8, 0i64, &g, &|s, l, p| s + l * p, &|x| x * 10);
    let mut r = R(8 | 1);
    let proj: Vec<i64> = (0..rank * dim).map(|_| r.gauss(&g)).collect();
    let mut want = Vec::new();
    for _ in 0..n {
        let lat: Vec<i64> = (0..rank).map(|_| r.gauss(&g)).collect();
        for j in 0..dim {
            want.push(10 * (0..rank).map(|t| lat[t] * proj[t * dim + j]).sum::<i64>());
        }
    }
    assert_eq!(out, want);
    assert!(lowrank(0, 4, 2, 1, 0i64, &g, &|s, l, p| s + l * p, &|x| x).is_empty());
}

#[test]
fn a_clustered_corpus_takes_its_centres_in_turn() {
    let g = |u: u32, _: u32| (u % 100) as i64;
    let out = make_data(5, 2, 3, 6, &g, &|x| x * 1000, &|x, y| x + y);
    let mut r = R(6 | 1);
    let centers: Vec<i64> = (0..6).map(|_| r.gauss(&g) * 1000).collect();
    let mut want = Vec::new();
    for i in 0..5 {
        for j in 0..2 {
            want.push(centers[(i % 3) * 2 + j] + r.gauss(&g));
        }
    }
    assert_eq!(out, want);
}

#[test]
fn levels_are_cut_off() {
    assert_eq!(draw(&|u| u as usize, 3), 3);
    assert_eq!(draw(&|u| u as usize, 16), 16);
    assert_eq!(draw(&|u| u as usize, 17), 16);
}

#[test]
fn a_set_of_visited_nodes_is_emptied_at_once() {
    let mut v = Visited::new();
    v.begin(4);
    assert!(!v.contains(2));
    v.mark(2);
    assert!(v.contains(2) && !v.contains(3));
    v.begin(6);
    assert!(!v.contains(2) && !v.contains(5));
}

#[test]
fn lists_are_replaced_and_cut_to_room() {
    let mut l = Links::new(2);
    l.add_node(1);
    l.add_node(0);
    let mut out = vec![9];
    l.copy_nbrs(0, 0, &mut out);
    assert!(out.is_empty());
    l.set_nbrs(0, 0, &[1, 0, 1]);
    l.set_nbrs(0, 1, &[1, 0, 1]);
    l.copy_nbrs(0, 0, &mut out);
    assert_eq!(out, vec![1, 0]);
    l.copy_nbrs(0, 1, &mut out);
    assert_eq!(out, vec![1, 0, 1]);
    l.copy_nbrs(1, 1, &mut out);
    assert!(out.is_empty());
    assert_eq!(l.len(), 2);
    l.set_nbrs(0, 0, &[1]);
    l.copy_nbrs(0, 0, &mut out);
    assert_eq!(out, vec![1]);
}

#[test]
fn different_states_stay_different() {
    for x in 1..200u64 {
        let (mut a, mut b) = (R(x), R(x + 1));
        a.next();
        b.next();
        assert_ne!(a.0, b.0);
    }
}

#[test]
fn a_shorter_corpus_is_the_start_of_a_longer_one() {
    let g = |u: u32, v: u32| ((u % 7) as i64) - ((v % 5) as i64);
    let low = |n, seed| lowrank(n, 4, 2, seed, 0i64, &g, &|s, l, p| s + l * p, &|x| x);
    let clustered = |n, seed| make_data(n, 2, 3, seed, &g, &|x| x * 100, &|x, y| x + y);
    for seed in [0u64, 7, 12] {
        let long = low(9, seed);
        let many = clustered(9, seed);
        for n in 0..9 {
            assert_eq!(low(n, seed)[..], long[..n * 4]);
            assert_eq!(clustered(n, seed)[..], many[..n * 2]);
        }
        // An even seed and the odd one behind it are the same.
        assert_eq!(low(9, seed | 1), long);
        assert_eq!(clustered(9, seed | 1), many);
    }
}
