use rust_diff::diff::myers_diff::diff;

fn lines(items: &[&str]) -> Vec<String> {
    items.iter().map(|s| (*s).to_owned()).collect()
}

/// Fewest insertions and deletions, by the textbook table.
fn reference_distance(lhs: &[String], rhs: &[String]) -> usize {
    let n = lhs.len();
    let m = rhs.len();
    let mut t = vec![vec![0usize; m + 1]; n + 1];
    for i in 0..=n {
        for j in 0..=m {
            t[i][j] = if i == 0 {
                j
            } else if j == 0 {
                i
            } else if lhs[i - 1] == rhs[j - 1] {
                t[i - 1][j - 1]
            } else {
                1 + t[i - 1][j].min(t[i][j - 1])
            };
        }
    }
    t[n][m]
}

fn assert_optimal(lhs: &[String], rhs: &[String], trace: &[(usize, usize)]) {
    for &(x, y) in trace {
        assert!(x < lhs.len() && y < rhs.len());
        assert_eq!(lhs[x], rhs[y]);
    }
    for w in trace.windows(2) {
        assert!(w[0].0 < w[1].0 && w[0].1 < w[1].1);
    }
    let uncovered = (lhs.len() - trace.len()) + (rhs.len() - trace.len());
    assert_eq!(uncovered, reference_distance(lhs, rhs));
}

#[test]
fn one_trace() {
    let lhs = lines(&["a", "b", "c"]);
    let rhs = lines(&["d", "b", "e"]);

    let res = diff(&lhs, &rhs);

    assert_eq!(vec![(1, 1)], res.trace);
}

#[test]
fn both_input_empty() {
    let lhs = vec![];
    let rhs = vec![];

    let res = diff(&lhs, &rhs);

    assert_eq!(true, res.trace.len() == 0);
}

#[test]
fn lhs_input_empty() {
    let lhs = vec![];
    let rhs = lines(&["a"]);

    let res = diff(&lhs, &rhs);

    assert_eq!(true, res.trace.len() == 0);
}

#[test]
fn rhs_input_empty() {
    let lhs = lines(&["a"]);
    let rhs = vec![];

    let res = diff(&lhs, &rhs);

    assert_eq!(true, res.trace.len() == 0);
}

#[test]
fn same_input() {
    let lhs = lines(&["aa", "bb", "cc"]);
    let rhs = lines(&["aa", "bb", "cc"]);

    let res = diff(&lhs, &rhs);

    assert_eq!(vec![(0, 0), (1, 1), (2, 2)], res.trace);
}

#[test]
fn classic_example_is_optimal() {
    let lhs = lines(&["a", "b", "c", "a", "b", "b", "a"]);
    let rhs = lines(&["c", "b", "a", "b", "a", "c"]);
    let res = diff(&lhs, &rhs);
    assert_eq!(res.trace.len(), 4);
    assert_optimal(&lhs, &rhs, &res.trace);
}

#[test]
fn nothing_in_common() {
    let lhs = lines(&["a", "b"]);
    let rhs = lines(&["c", "d", "e"]);
    let res = diff(&lhs, &rhs);
    assert!(res.trace.is_empty());
}

#[test]
fn prefix_and_suffix_changes() {
    let lhs = lines(&["x", "a", "b", "c"]);
    let rhs = lines(&["a", "b", "c", "y", "z"]);
    let res = diff(&lhs, &rhs);
    assert_eq!(vec![(1, 0), (2, 1), (3, 2)], res.trace);
}

#[test]
fn single_line_against_longer_file() {
    let lhs = lines(&["p"]);
    let rhs = lines(&["p", "q", "r"]);
    let res = diff(&lhs, &rhs);
    assert_eq!(vec![(0, 0)], res.trace);
    let res = diff(&rhs, &lhs);
    assert_eq!(vec![(0, 0)], res.trace);
}

fn next(seed: &mut u64) -> u64 {
    *seed = seed.wrapping_mul(6364136223846793005).wrapping_add(1442695040888963407);
    *seed >> 33
}

fn pick(seed: &mut u64, len: usize) -> Vec<String> {
    let alphabet = ["a", "b", "c"];
    (0..len).map(|_| alphabet[(next(seed) % 3) as usize].to_owned()).collect()
}

#[test]
fn many_small_inputs_are_optimal() {
    let mut seed: u64 = 7;
    for _ in 0..300 {
        let n = (next(&mut seed) % 7) as usize;
        let m = (next(&mut seed) % 7) as usize;
        let lhs = pick(&mut seed, n);
        let rhs = pick(&mut seed, m);
        let res = diff(&lhs, &rhs);
        assert_optimal(&lhs, &rhs, &res.trace);
        let back = diff(&rhs, &lhs);
        assert_eq!(res.trace.len(), back.trace.len());
    }
}

#[test]
fn cost_is_symmetric() {
    let lhs = lines(&["a", "b", "c", "d", "e"]);
    let rhs = lines(&["b", "x", "d", "e", "f", "a"]);
    let forward = diff(&lhs, &rhs);
    let backward = diff(&rhs, &lhs);
    assert_eq!(forward.trace.len(), backward.trace.len());
    assert_optimal(&lhs, &rhs, &forward.trace);
    assert_optimal(&rhs, &lhs, &backward.trace);
}

#[test]
fn identical_inputs_match_everywhere() {
    let lhs = lines(&["one", "two", "two", "three", "one"]);
    let res = diff(&lhs, &lhs.clone());
    let expected: Vec<(usize, usize)> = (0..lhs.len()).map(|i| (i, i)).collect();
    assert_eq!(expected, res.trace);
}

#[test]
fn empty_side_gives_empty_trace() {
    let lhs = lines(&["a", "b", "c"]);
    assert!(diff(&lhs, &vec![]).trace.is_empty());
    assert!(diff(&vec![], &lhs).trace.is_empty());
}
