use glauber::cell::Rwu32;
use glauber::color::glauber;
use glauber::color::greedy;
use glauber::color::remap;
use glauber::graph::Graph;
use glauber::graphio::read;
use glauber::graphio::GraphReadError;
use glauber::sampler::DiscreteSampler;
use glauber::scanner::DelimIter;
use glauber::simsvm;

fn shards(texts: &[&str]) -> Vec<Vec<u8>> {
    texts.iter().map(|t| t.as_bytes().to_vec()).collect()
}

fn is_proper(g: &Graph, colors: &[u32]) -> bool {
    let n = g.nvertices();
    for v in 0..n {
        for &w in g.neighbors(v as u32) {
            if colors[v] == colors[w as usize] {
                return false;
            }
        }
    }
    true
}

#[test]
fn cell_write_then_read_returns_written_value() {
    let mut cell = Rwu32::new(7);
    let mut guard = cell.try_write_lock().expect("unlocked cell");
    guard.write(42);
    cell.write_unlock(guard);
    let (value, rguard) = cell.try_read_lock().expect("no writer");
    assert_eq!(value, 42);
    cell.read_unlock(rguard);
    assert_eq!(cell.into_inner(), 42);
}

#[test]
fn cell_mutual_exclusion() {
    let mut cell = Rwu32::new(1);
    let wguard = cell.try_write_lock().expect("unlocked cell");
    assert!(cell.try_read_lock().is_none());
    assert!(cell.try_write_lock().is_none());
    cell.write_unlock(wguard);
    let (v, rguard) = cell.try_read_lock().expect("no writer");
    assert_eq!(v, 1);
    assert!(cell.try_write_lock().is_none());
    cell.read_unlock(rguard);
    assert!(cell.try_write_lock().is_some());
}

#[test]
fn sampler_invariant_holds_through_removes_and_reset() {
    let mut s = DiscreteSampler::new(5);
    assert_eq!(s.nalive(), 5);
    s.remove(2);
    s.remove(2);
    s.remove(4);
    assert_eq!(s.nalive(), 3);
    let mut rng = glauber::rng::rng_new(1, 1);
    for _ in 0..20 {
        let x = s.sample(&mut rng);
        assert!(x != 2 && x != 4 && x < 5);
    }
    s.reset();
    assert_eq!(s.nalive(), 5);
}

#[test]
fn builder_round_trip_over_two_shards() {
    let input = shards(&["0 1 2\n", "1 2\n"]);
    let g = read(&input, b' ').expect("well-formed input");
    assert_eq!(g.nvertices(), 3);
    assert_eq!(g.nedges(), 3);
    assert_eq!(g.neighbors(0), &[1, 2]);
    assert_eq!(g.neighbors(1), &[0, 2]);
    assert_eq!(g.neighbors(2), &[0, 1]);
}

#[test]
fn builder_rejects_malformed_and_non_simple_input() {
    let bad = shards(&["0 x\n"]);
    assert!(matches!(read(&bad, b' '), Err(GraphReadError::MalformedLine)));
    let empty_line = shards(&["0 1\n\n"]);
    assert!(matches!(read(&empty_line, b' '), Err(GraphReadError::MalformedLine)));
    let dup = shards(&["0 1\n1 0\n"]);
    assert!(matches!(read(&dup, b' '), Err(GraphReadError::NotSimple)));
    let self_loop = shards(&["0 0\n"]);
    assert!(matches!(read(&self_loop, b' '), Err(GraphReadError::NotSimple)));
}

#[test]
fn five_cycle_seed_and_chain_stay_proper() {
    let input = shards(&["0 1 4\n1 2\n2 3\n3 4\n"]);
    let g = read(&input, b' ').expect("well-formed input");
    assert_eq!(g.nvertices(), 5);
    for v in 0..5 {
        assert_eq!(g.degree(v), 2);
    }
    let (ncolors, colors) = greedy(&g);
    assert!(ncolors <= 3);
    assert!(is_proper(&g, &colors));
    let sampled = glauber(&g, 3, 200, 11).expect("budget covers max degree + 1");
    assert!(is_proper(&g, &sampled));
    assert!(sampled.iter().all(|&c| c < 3));
}

#[test]
fn isolated_vertex_needs_one_color_and_never_conflicts() {
    let input = shards(&["2\n0 1\n"]);
    let g = read(&input, b' ').expect("well-formed input");
    assert_eq!(g.nvertices(), 3);
    assert_eq!(g.degree(2), 0);
    let (ncolors, colors) = greedy(&g);
    assert!(ncolors <= 2);
    assert_eq!(colors[2], 0);
    assert!(is_proper(&g, &colors));
    let sampled = glauber(&g, 2, 100, 3).expect("budget covers max degree + 1");
    assert!(is_proper(&g, &sampled));
}

#[test]
fn star_graph_seed_uses_exactly_two_colors() {
    let input = shards(&["0 1 2 3 4\n"]);
    let g = read(&input, b' ').expect("well-formed input");
    assert_eq!(g.nvertices(), 5);
    assert_eq!(g.degree(0), 4);
    let (ncolors, colors) = greedy(&g);
    assert_eq!(ncolors, 2);
    assert!(is_proper(&g, &colors));
}

#[test]
fn glauber_refuses_too_small_budget() {
    let input = shards(&["0 1 2 3 4\n"]);
    let g = read(&input, b' ').expect("well-formed input");
    assert!(glauber(&g, 1, 10, 0).is_none());
    assert!(glauber(&g, 9, 10, 0).is_some());
}

#[test]
fn remap_ranks_features_within_each_color() {
    let colors = vec![0, 1, 0, 1, 0];
    let r = remap(2, &colors);
    assert_eq!(r, vec![1, 1, 2, 2, 3]);
}

#[test]
fn parse_u32_handles_digits_and_overflow() {
    assert_eq!(simsvm::parse_u32(b"0"), Some(0));
    assert_eq!(simsvm::parse_u32(b"4294967295"), Some(u32::MAX));
    assert_eq!(simsvm::parse_u32(b"4294967296"), None);
    assert_eq!(simsvm::parse_u32(b""), None);
    assert_eq!(simsvm::parse_u32(b"12a"), None);
}

#[test]
fn delim_iter_splits_words() {
    let mut it = DelimIter::new(b"10 11  12 ", b' ');
    assert_eq!(it.next(), Some(&b"10"[..]));
    assert_eq!(it.next(), Some(&b"11"[..]));
    assert_eq!(it.next(), Some(&b""[..]));
    assert_eq!(it.next(), Some(&b"12"[..]));
    assert_eq!(it.next(), None);
}

#[test]
fn simsvm_line_iter_walks_features() {
    let mut line = simsvm::parse(DelimIter::new(b"3 1 2", b' ')).expect("target");
    assert_eq!(line.target(), Some(3));
    assert_eq!(line.next(), Some(Some(1)));
    assert_eq!(line.next(), Some(Some(2)));
    assert_eq!(line.next(), None);
}
