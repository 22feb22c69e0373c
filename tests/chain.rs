use arcweld::chain::{assemble, GridPoint, Segment};

fn seg(a: (i64, i64), b: (i64, i64)) -> Segment {
    Segment { from: GridPoint { x: a.0, y: a.1 }, to: GridPoint { x: b.0, y: b.1 } }
}

#[test]
fn two_disjoint_chains() {
    let segs = vec![seg((10, 0), (11, 1)), seg((0, 0), (1, 1)), seg((1, 1), (2, 1)), seg((11, 1), (12, 1))];
    let chains = assemble(&segs);
    assert_eq!(chains, vec![vec![1, 2], vec![0, 3]]);
}

#[test]
fn chain_starts_at_least_point_and_goes_forward_only() {
    let segs = vec![seg((1, 0), (2, 0)), seg((0, 0), (1, 0)), seg((-1, 5), (0, 0))];
    let chains = assemble(&segs);
    assert_eq!(chains, vec![vec![2, 1, 0]]);
    let segs = vec![seg((5, 0), (6, 0)), seg((0, 0), (5, 0)), seg((7, 7), (5, 0))];
    let chains = assemble(&segs);
    assert_eq!(chains, vec![vec![1, 0], vec![2]]);
}

#[test]
fn later_segment_with_same_start_wins() {
    let segs = vec![seg((0, 0), (1, 0)), seg((0, 0), (0, 1))];
    assert_eq!(assemble(&segs), vec![vec![1]]);
}

#[test]
fn closed_loop_is_one_chain() {
    let segs = vec![seg((0, 0), (1, 0)), seg((1, 0), (1, 1)), seg((1, 1), (0, 0))];
    assert_eq!(assemble(&segs), vec![vec![0, 1, 2]]);
}

#[test]
fn no_segments_no_chains() {
    assert!(assemble(&vec![]).is_empty());
}
