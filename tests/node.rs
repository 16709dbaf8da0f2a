use dummytext::node::Node;

fn node_with(counts: &[(usize, usize)]) -> Node {
    let mut n = Node::fresh(0);
    for &(i, c) in counts {
        n.exits[i] = (i, c);
        n.visits += c;
    }
    n
}

#[test]
fn fresh_node_is_valid_and_empty() {
    let n = Node::fresh(3);
    assert_eq!(n.visits, 0);
    assert!(n.exits.iter().all(|&e| e == (3, 0)));
    assert!(n.validate());
}

#[test]
fn validate_detects_a_mismatch() {
    let mut n = node_with(&[(1, 3), (2, 7)]);
    assert!(n.validate());
    n.visits = 9;
    assert!(!n.validate());
}

#[test]
fn split_divides_counts_with_remainder_to_new_node_first() {
    let mut n = node_with(&[(1, 3), (2, 7)]);
    let m = n.split(4);
    assert_eq!(m.visits, 4);
    assert_eq!(n.visits, 6);
    assert_eq!(m.exits[1], (1, 2));
    assert_eq!(m.exits[2], (2, 2));
    assert_eq!(n.exits[1], (1, 1));
    assert_eq!(n.exits[2], (2, 5));
    assert!(n.validate());
    assert!(m.validate());
}

#[test]
fn split_conserves_every_count() {
    let counts = [(0, 5), (3, 1), (4, 9), (7, 2), (11, 13), (26, 4)];
    let before = node_with(&counts);
    for d in 1..before.visits {
        let mut kept = before;
        let new = kept.split(d);
        assert_eq!(kept.visits, before.visits - d);
        assert_eq!(new.visits, d);
        for i in 0..27 {
            assert_eq!(kept.exits[i].1 + new.exits[i].1, before.exits[i].1);
            assert_eq!(kept.exits[i].0, before.exits[i].0);
            assert_eq!(new.exits[i].0, before.exits[i].0);
        }
        assert!(kept.validate());
        assert!(new.validate());
    }
}

#[test]
fn split_rounding_is_at_most_one_per_edge() {
    let counts = [(1, 7), (2, 7), (3, 7)];
    let before = node_with(&counts);
    let mut kept = before;
    let new = kept.split(10);
    for i in 1..4 {
        let o = before.exits[i].1;
        let floor_new = o * 10 / 21;
        let floor_kept = o * 11 / 21;
        assert!(new.exits[i].1 - floor_new <= 1);
        assert!(kept.exits[i].1 - floor_kept <= 1);
    }
    assert_eq!(new.visits, 10);
}

#[test]
fn split_of_zero_visits_moves_nothing() {
    let mut n = node_with(&[(5, 2)]);
    let m = n.split(0);
    assert_eq!(m.visits, 0);
    assert_eq!(n.visits, 2);
    assert_eq!(n.exits[5], (5, 2));
    assert!(m.exits.iter().all(|e| e.1 == 0));
}
