use rushnsw::cand::Cand;
use rushnsw::hnsw::Hnsw;
use rushnsw::metric::Corpus;
use rushnsw::select::select;
use rushnsw::synth::R;
use rushnsw::truth;

fn gap(a: &[i32], b: &[i32]) -> u32 {
    a.iter().zip(b).map(|(x, y)| (x - y).pow(2) as u32).sum()
}

fn flat(_: u64) -> usize {
    0
}

/// One node in four reaches one level higher.
fn quarter(u: u64) -> usize {
    (u.trailing_zeros() / 2) as usize
}

fn line(n: i32, level: fn(u64) -> usize) -> Hnsw<i32, fn(&[i32], &[i32]) -> u32, fn(u64) -> usize> {
    let mut h: Hnsw<i32, fn(&[i32], &[i32]) -> u32, fn(u64) -> usize> =
        Hnsw::new(1, 4, 20, 7, gap, level);
    for i in 0..n {
        h.insert(&[i * 10]);
    }
    h
}

#[test]
fn an_empty_index_finds_nothing() {
    let mut h = Hnsw::new(3, 4, 10, 1, gap, flat);
    assert_eq!(h.len(), 0);
    assert_eq!(h.max_level(), 0);
    assert!(h.search(&[1, 2, 3], 5, 10).is_empty());
    assert_eq!(h.dist_calls(), 0);
    assert_eq!(h.degree_stats(), (0, 0, 0));
    assert_eq!(h.graph_bytes(), 0);
    assert_eq!(h.levels_fingerprint(), 1469598103934665603);
}

#[test]
fn ids_count_up_and_vectors_are_found() {
    let mut h = Hnsw::new(2, 4, 10, 1, gap, quarter);
    assert_eq!(h.insert(&[0, 0]), 0);
    assert_eq!(h.dist_calls(), 0);
    assert_eq!(h.insert(&[3, 4]), 1);
    assert_eq!(h.insert(&[6, 8]), 2);
    assert_eq!(h.len(), 3);
    assert!(h.dist_calls() > 0);
    assert_eq!(h.search(&[3, 4], 3, 10), vec![(1, 0), (0, 25), (2, 25)]);
    assert_eq!(h.search(&[3, 4], 1, 1), vec![(1, 0)]);
}

#[test]
fn results_are_sorted_distinct_and_true() {
    let mut h = line(200, quarter);
    for q in [0, 55, 1234, 1990] {
        let r = h.search(&[q], 10, 16);
        assert_eq!(r.len(), 10);
        for i in 0..r.len() {
            assert_eq!(r[i].1, (r[i].0 as i32 * 10 - q).pow(2) as u32);
            if i > 0 {
                assert!(r[i - 1].1 <= r[i].1);
                assert!(r[..i].iter().all(|x| x.0 != r[i].0));
            }
        }
    }
}

#[test]
fn the_beam_is_as_wide_as_k_asks() {
    let mut h = line(50, flat);
    assert_eq!(h.search(&[245], 8, 1).len(), 8);
    assert_eq!(h.search(&[245], 0, 10), vec![]);
    assert_eq!(h.search(&[245], 0, 0), vec![]);
    assert_eq!(h.search(&[245], 100, 1).len(), 50);
}

#[test]
fn fewer_is_a_prefix_of_more() {
    let mut h = line(100, quarter);
    let more = h.search(&[333], 20, 30);
    let fewer = h.search(&[333], 7, 30);
    assert_eq!(fewer[..], more[..7]);
}

#[test]
fn a_search_changes_nothing_but_the_count() {
    let mut h = line(100, quarter);
    let (stats, print) = (h.degree_stats(), h.levels_fingerprint());
    h.reset_dist_calls();
    assert_eq!(h.dist_calls(), 0);
    let a = h.search(&[500], 5, 10);
    let calls = h.dist_calls();
    assert!(calls > 0);
    assert!(calls <= (h.max_level() as u64 + 1) * 100);
    let b = h.search(&[500], 5, 10);
    assert_eq!(a, b);
    assert_eq!(h.dist_calls(), 2 * calls);
    assert_eq!((h.degree_stats(), h.levels_fingerprint(), h.len()), (stats, print, 100));
}

#[test]
fn a_wide_beam_is_exhaustive() {
    let data: Vec<i32> = (0..120).map(|i| (i * 37 % 101) * 3).collect();
    let mut h = Hnsw::new(2, 4, 60, 3, gap, quarter);
    for v in data.chunks(2) {
        h.insert(v);
    }
    for q in [[0, 0], [150, 150], [300, 7]] {
        let mut want = truth::truth(&data, 2, &q, 60, &gap);
        let got = h.search(&q, 60, 61);
        assert_eq!(got.len(), 60);
        assert_eq!(got, want);
        want.truncate(3);
        assert_eq!(h.search(&q, 3, 61), want);
    }
}

#[test]
fn insertion_leaves_no_orphan() {
    let mut h = Hnsw::new(1, 2, 3, 5, gap, quarter);
    h.insert(&[0]);
    assert_eq!(h.degree_stats(), (0, 0, 1));
    for i in 1..100 {
        h.insert(&[(i * 61) % 97]);
        let (sum, min, orphans) = h.degree_stats();
        assert_eq!(orphans, 0);
        assert!(min >= 1);
        assert!(sum <= 4 * (i as u64 + 1));
    }
}

#[test]
fn equal_seeds_make_equal_indexes() {
    let mut a = line(150, quarter);
    let mut b = line(150, quarter);
    assert_eq!(a.levels_fingerprint(), b.levels_fingerprint());
    assert_eq!(a.dist_calls(), b.dist_calls());
    assert_eq!(a.search(&[777], 10, 20), b.search(&[777], 10, 20));
}

#[test]
fn levels_follow_the_stream_and_stop_at_sixteen() {
    let mut r = R(7 | 1);
    let mut want = 1469598103934665603u64;
    let mut top = 0;
    for _ in 0..150 {
        let l = quarter(r.next() >> 11).min(16);
        want = (want ^ l as u64).wrapping_mul(1099511628211);
        top = top.max(l);
    }
    let h = line(150, quarter);
    assert_eq!(h.levels_fingerprint(), want);
    assert_eq!(h.max_level() as usize, top);
    let tall = line(3, |_| 1000);
    assert_eq!(tall.max_level(), 16);
}

#[test]
fn bytes_are_counted() {
    let h = line(10, flat);
    assert_eq!(h.f32_bytes(), 40);
    assert_eq!(h.graph_bytes(), 10 * 8 * 4 + 10 * 2);
    assert_eq!(h.q8_bytes(), 0);
    assert_eq!(h.q8_peak(), None);
    assert_eq!(h.pq_bytes(), 0);
    assert_eq!(h.pq_codebook_bytes(), 0);
    assert_eq!(h.pq_lut_bytes(), 0);
    // Two nodes on level 1 as well, each with the other as its neighbour there.
    let mut tall = Hnsw::new(1, 4, 10, 1, gap, |_| 1);
    tall.insert(&[1]);
    tall.insert(&[2]);
    assert_eq!(tall.graph_bytes(), 2 * 8 * 4 + 2 * 2 + 2 * 4);
}

#[test]
fn a_graph_made_elsewhere_is_taken_over() {
    // Three nodes in a row, the middle one linked to both others.
    let none = u32::MAX;
    let mut h = Hnsw::from_parts(
        1,
        1,
        10,
        vec![0, 5, 9],
        vec![1, none, 0, 2, 1, none],
        vec![1, 2, 1],
        vec![vec![], vec![], vec![]],
        vec![0, 0, 0],
        0,
        0,
        gap,
        flat,
    );
    assert_eq!(h.len(), 3);
    assert_eq!(h.degree_stats(), (4, 1, 0));
    assert_eq!(h.search(&[9], 3, 3), vec![(2, 0), (1, 16), (0, 81)]);
    assert_eq!(h.search(&[9], 1, 1), vec![(2, 0)]);
    assert_eq!(h.insert(&[20]), 3);
    assert_eq!(h.search(&[20], 1, 4), vec![(3, 0)]);
}

#[test]
fn a_narrow_beam_stops_at_a_local_optimum() {
    // From node 0 the way to the nearest node leads through a farther one.
    let none = u32::MAX;
    let mut h = Hnsw::from_parts(
        1,
        1,
        10,
        vec![10, 20, 0],
        vec![1, none, 0, 2, 1, none],
        vec![1, 2, 1],
        vec![vec![], vec![], vec![]],
        vec![0, 0, 0],
        0,
        0,
        gap,
        flat,
    );
    assert_eq!(h.search(&[0], 1, 1), vec![(0, 100)]);
    assert_eq!(h.search(&[0], 1, 2), vec![(2, 0)]);
}

fn pick(data: &[i32], pool: &[u32], base: i32, m: usize) -> Vec<u32> {
    let corpus = Corpus { data, dim: 1, n: data.len(), dist: &gap };
    let pool: Vec<Cand> = pool
        .iter()
        .map(|&id| Cand { d: gap(&[base], &data[id as usize..id as usize + 1]), id })
        .collect();
    select(&corpus, &pool, m)
}

#[test]
fn chosen_neighbours_are_spread_out() {
    // 1 and 2 lie behind one another, 3 lies on the other side of the base.
    let data = [0, 4, 6, -7];
    assert_eq!(pick(&data, &[1, 2, 3], 0, 3), vec![1, 3]);
    assert_eq!(pick(&data, &[3, 2, 1], 0, 3), vec![1, 3]);
    assert_eq!(pick(&data, &[1, 2, 3], 0, 1), vec![1]);
    assert_eq!(pick(&data, &[1, 2, 3], 0, 0), Vec::<u32>::new());
    assert_eq!(pick(&data, &[], 0, 3), Vec::<u32>::new());
    // A candidate that is as near to a chosen one as to the base is left out.
    assert_eq!(pick(&[0, 3, 6], &[1, 2], 0, 2), vec![1]);
}

#[test]
fn exhaustive_search_orders_ties_by_id() {
    let data = [5, 1, 9, 1, 5];
    assert_eq!(
        truth::truth(&data, 1, &[3], 4, &gap),
        vec![(0, 4), (1, 4), (3, 4), (4, 4)]
    );
    assert_eq!(truth::truth(&data, 1, &[3], 9, &gap).len(), 5);
    assert_eq!(truth::truth(&data, 1, &[3], 0, &gap), vec![]);
}

#[test]
fn recall_counts_what_both_hold() {
    let got = vec![vec![1, 2, 3], vec![4], vec![9]];
    let want = vec![vec![3, 1], vec![5]];
    assert_eq!(truth::recall(&got, &want), 2);
    assert_eq!(truth::recall(&[], &want), 0);
    assert_eq!(truth::recall(&want, &want), 3);
}

#[test]
fn what_no_edge_leads_to_is_not_found() {
    // Nodes 0 and 1 know one another, and node 2 knows both but neither knows it.
    let none = u32::MAX;
    let mut h = Hnsw::from_parts(
        1,
        1,
        10,
        vec![0, 5, 9],
        vec![1, none, 0, none, 0, 1],
        vec![1, 1, 2],
        vec![vec![], vec![], vec![]],
        vec![0, 0, 0],
        0,
        0,
        gap,
        flat,
    );
    assert_eq!(h.search(&[9], 3, 10), vec![(1, 16), (0, 81)]);
    assert_eq!(h.degree_stats(), (4, 1, 0));
}

#[test]
fn figures_do_not_ask_what_the_lists_hold() {
    // Lists that name no node of the index.
    let h = Hnsw::from_parts(
        1,
        2,
        10,
        vec![0, 0, 0],
        vec![u32::MAX; 12],
        vec![2, 0, 1],
        vec![vec![], vec![], vec![]],
        vec![0, 0, 0],
        0,
        0,
        gap,
        flat,
    );
    assert_eq!(h.degree_stats(), (3, 0, 1));
    assert_eq!(h.graph_bytes(), 12 * 4 + 3 * 2);
}

#[test]
fn a_beam_as_wide_as_the_index_is_exact() {
    let data: Vec<i32> = (0..8).map(|x| x * x).collect();
    let mut h = line(8, flat);
    for q in -3..60 {
        let got = h.search(&[q], 8, 8);
        assert_eq!(got.len(), 8);
        assert!(got.windows(2).all(|w| (w[0].1, w[0].0) < (w[1].1, w[1].0)));
    }
    let mut squares = Hnsw::new(1, 8, 8, 1, gap, flat);
    for x in &data {
        squares.insert(&[*x]);
    }
    for q in -3..60 {
        assert_eq!(squares.search(&[q], 5, 8), truth::truth(&data, 1, &[q], 5, &gap));
    }
}

#[test]
fn what_hides_a_candidate_is_nearer() {
    // 2 is hidden by 1, which is nearer to the base; 3 stands on the other side and is
    // hidden by nothing.
    assert_eq!(pick(&[0, 5, 6, -9], &[2, 1, 3], 0, 3), vec![1, 3]);
    // Of two at equal distance the one with the smaller id comes first and hides.
    assert_eq!(pick(&[0, 7, 7], &[2, 1], 0, 2), vec![1]);
}
