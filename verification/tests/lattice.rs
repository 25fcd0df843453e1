//! Best paths.

use fastrans::lattice::{solve, Edge};

fn edge(end: usize, gain: i128, word: &str) -> Edge {
    Edge { end, gain, word: word.to_string(), raw: false }
}

#[test]
fn the_best_path_wins() {
    let lat = vec![
        vec![edge(1, -5, "a"), edge(2, -9, "ab")],
        vec![edge(2, -3, "b"), edge(3, -20, "bc")],
        vec![edge(3, -1, "c")],
    ];
    let dp = solve(&lat);
    assert_eq!(dp.len(), 4);
    let s = dp[2].as_ref().unwrap();
    assert_eq!((s.score, s.prev, s.word.as_str()), (-8, 1, "b"));
    let s = dp[3].as_ref().unwrap();
    assert_eq!((s.score, s.prev, s.word.as_str()), (-9, 2, "c"));
}

#[test]
fn equals_keep_the_first_edge() {
    let lat = vec![vec![edge(2, -4, "first"), edge(2, -4, "second"), edge(1, -2, "x")], vec![edge(2, -2, "y")]];
    let dp = solve(&lat);
    assert_eq!(dp[2].as_ref().unwrap().word, "first");
}

#[test]
fn positions_without_a_path() {
    let lat = vec![vec![edge(2, -1, "a")], vec![edge(3, -1, "b")], vec![]];
    let dp = solve(&lat);
    assert!(dp[1].is_none());
    assert!(dp[2].is_some());
    assert!(dp[3].is_none());
}
