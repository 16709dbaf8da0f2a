use dummytext::codec::encode_text;
use dummytext::graph::{Config, ContextGraph};
use dummytext::sampler::Sampler;
use rand::rngs::StdRng;
use rand::SeedableRng;

fn symbols(text: &str) -> Vec<usize> {
    let chars: Vec<char> = text.chars().collect();
    encode_text(&chars)
}

fn counts(g: &ContextGraph) -> Vec<(usize, Vec<(usize, usize)>)> {
    g.nodes.iter().map(|n| (n.visits, n.exits.to_vec())).collect()
}

#[test]
fn standard_config() {
    let c = Config::standard();
    assert_eq!(c.min_visits, 4);
    assert_eq!(c.min_remaining, 4);
    assert!(!c.go_back);
}

#[test]
fn empty_input_leaves_only_the_root() {
    let g = ContextGraph::build(Config::standard(), &Vec::new());
    assert_eq!(g.len(), 1);
    assert_eq!(g.nodes[0].visits, 0);
    let mut rng = StdRng::seed_from_u64(1);
    let out = Sampler::new(false).generate(&g, 0, &mut rng);
    assert!(out.is_empty());
}

#[test]
fn repeated_letters_split_the_root() {
    let cfg = Config { min_visits: 1, min_remaining: 0, go_back: false };
    let g = ContextGraph::build(cfg, &symbols("aaaa aaaa"));
    assert!(g.len() > 1);
    assert_eq!(g.ingested, 9);
    assert!(g.nodes.iter().all(|n| n.validate()));
}

#[test]
fn seeded_generation_is_reproducible() {
    let cfg = Config { min_visits: 1, min_remaining: 0, go_back: false };
    let g = ContextGraph::build(cfg, &symbols("aaaa aaaa"));
    let mut r1 = StdRng::seed_from_u64(42);
    let mut r2 = StdRng::seed_from_u64(42);
    let a = Sampler::new(false).generate(&g, 50, &mut r1);
    let b = Sampler::new(false).generate(&g, 50, &mut r2);
    assert_eq!(a, b);
    assert!(a.iter().all(|&s| s < 27));
}

#[test]
fn ingesting_twice_gives_the_same_counts() {
    let cfg = Config { min_visits: 1, min_remaining: 0, go_back: false };
    let syms = symbols("the cat sat on the mat and the rat ate the hat");
    let g1 = ContextGraph::build(cfg, &syms);
    let g2 = ContextGraph::build(cfg, &syms);
    assert_eq!(counts(&g1), counts(&g2));
}

#[test]
fn go_back_returns_to_root_after_a_space() {
    let cfg = Config { min_visits: 1, min_remaining: 0, go_back: true };
    let mut g = ContextGraph::new(cfg);
    let mut cursor = 0;
    for s in symbols("ab cd") {
        cursor = g.ingest(s, cursor);
        if s == 0 {
            assert_eq!(cursor, 0);
        }
    }
    assert!(g.nodes.iter().all(|n| n.validate()));
}

#[test]
fn first_ingest_records_a_self_loop() {
    let mut g = ContextGraph::new(Config::standard());
    let next = g.ingest(3, 0);
    assert_eq!(next, 0);
    assert_eq!(g.nodes[0].visits, 1);
    assert_eq!(g.nodes[0].exits[3], (0, 1));
}

#[test]
fn ingest_splits_when_both_thresholds_are_passed() {
    let cfg = Config { min_visits: 1, min_remaining: 0, go_back: false };
    let mut g = ContextGraph::new(cfg);
    assert_eq!(g.ingest(1, 0), 0);
    // second 'a': edge count 2 > 1, target visits 2 + 1 - 2 = 1 > 0
    let next = g.ingest(1, 0);
    assert_eq!(next, 1);
    assert_eq!(g.len(), 2);
    assert_eq!(g.nodes[0].exits[1].0, 1);
    assert_eq!(g.nodes[1].visits, 1);
    assert_eq!(g.nodes[0].visits, 1);
    assert_eq!(g.nodes[0].exits[1].1 + g.nodes[1].exits[1].1, 2);
}

#[test]
fn no_split_below_the_visit_threshold() {
    let mut g = ContextGraph::new(Config::standard());
    let mut cursor = 0;
    for _ in 0..4 {
        cursor = g.ingest(1, cursor);
    }
    assert_eq!(g.len(), 1);
    assert_eq!(g.nodes[0].exits[1], (0, 4));
}

#[test]
fn sampler_step_follows_cumulative_counts() {
    let mut g = ContextGraph::new(Config::standard());
    let mut cursor = 0;
    for s in [2, 2, 5, 0, 5, 5] {
        cursor = g.ingest(s, cursor);
    }
    // root counts: 0 -> 1, 2 -> 2, 5 -> 3
    let expect = [0, 2, 2, 5, 5, 5];
    for (r, &e) in expect.iter().enumerate() {
        let mut s = Sampler::new(false);
        assert_eq!(s.step(&g, r), e);
        assert_eq!(s.cursor, 0);
    }
}

#[test]
fn sampler_goes_back_after_space() {
    let cfg = Config { min_visits: 1, min_remaining: 0, go_back: false };
    let mut g = ContextGraph::new(cfg);
    g.ingest(1, 0);
    g.ingest(1, 0);
    g.ingest(0, 1);
    // node 1 has a single edge on symbol 0, leading back to the root
    let mut s = Sampler { cursor: 1, go_back: true };
    assert_eq!(s.step(&g, 0), 0);
    assert_eq!(s.cursor, 0);
    let mut s = Sampler { cursor: 0, go_back: false };
    assert_eq!(s.step(&g, 0), 1);
    assert_eq!(s.cursor, 1);
}

#[test]
fn generation_uses_draws_below_the_visit_count() {
    let mut g = ContextGraph::new(Config::standard());
    for _ in 0..4 {
        g.ingest(1, 0);
    }
    let mut rng = StdRng::seed_from_u64(9);
    let out = Sampler::new(false).generate(&g, 20, &mut rng);
    assert_eq!(out, vec![1; 20]);
}

#[test]
fn generation_stops_at_an_unvisited_node() {
    let g = ContextGraph::new(Config::standard());
    let mut rng = StdRng::seed_from_u64(3);
    let mut s = Sampler::new(false);
    assert!(s.generate(&g, 5, &mut rng).is_empty());
    assert_eq!(s.cursor, 0);
}
