use rust_diff::diff::diff;
use rust_diff::diff::diff_result::DiffResult;
use rust_diff::Config;

fn lines(items: &[&str]) -> Vec<String> {
    items.iter().map(|s| (*s).to_owned()).collect()
}

#[test]
fn top_level_diff_matches_engine() {
    let lhs = lines(&["a", "b", "c"]);
    let rhs = lines(&["d", "b", "e"]);
    assert_eq!(vec![(1, 1)], diff(&lhs, &rhs).trace);
}

#[test]
fn result_keeps_its_trace() {
    let r = DiffResult::new(vec![(0, 2), (3, 4)]);
    assert_eq!(vec![(0, 2), (3, 4)], r.trace);
}

#[test]
fn config_reads_two_paths() {
    let args = lines(&["prog", "left.txt", "right.txt"]);
    let c = Config::build(&args).ok().unwrap();
    assert_eq!(c.file1_path, "left.txt");
    assert_eq!(c.file2_path, "right.txt");
}

#[test]
fn config_ignores_extra_arguments() {
    let args = lines(&["prog", "l", "r", "extra"]);
    let c = Config::build(&args).ok().unwrap();
    assert_eq!(c.file1_path, "l");
    assert_eq!(c.file2_path, "r");
}

#[test]
fn config_needs_two_paths() {
    let args = lines(&["prog", "only.txt"]);
    assert_eq!(Config::build(&args).err(), Some("not enough arguments"));
    assert_eq!(Config::build(&[]).err(), Some("not enough arguments"));
}

use rust_diff::blocks::{change_blocks, Hunk};

fn hunk(x_start: usize, x_end: usize, y_start: usize, y_end: usize) -> Hunk {
    Hunk { x_start, x_end, y_start, y_end }
}

#[test]
fn blocks_between_matches() {
    let lhs = lines(&["a", "b", "c"]);
    let rhs = lines(&["d", "b", "e"]);
    let trace = diff(&lhs, &rhs).trace;
    assert_eq!(
        change_blocks(&trace, lhs.len(), rhs.len()),
        vec![hunk(0, 1, 0, 1), hunk(2, 3, 2, 3)]
    );
}

#[test]
fn blocks_of_additions_and_deletions() {
    let trace = vec![(1, 0), (2, 1), (3, 2)];
    assert_eq!(change_blocks(&trace, 4, 5), vec![hunk(0, 1, 0, 0), hunk(4, 4, 3, 5)]);
}

#[test]
fn no_blocks_for_identical_inputs() {
    let trace = vec![(0, 0), (1, 1)];
    assert!(change_blocks(&trace, 2, 2).is_empty());
}

#[test]
fn one_block_when_nothing_matches() {
    assert_eq!(change_blocks(&vec![], 2, 3), vec![hunk(0, 2, 0, 3)]);
    assert!(change_blocks(&vec![], 0, 0).is_empty());
}
