use diffy::diff::{Diff, DiffReport};
use diffy::files::{parse_arguments, ArgsError};
use diffy::grid::Grid;
use diffy::lcs::lcs;

fn count_marked(text: &str, marker: &str) -> usize {
    text.lines().filter(|line| line.starts_with(marker)).count()
}

#[test]
fn generate_diff_correctly() {
    let original_contents: Vec<&str> = vec!["a", "b", "c", "d", "e"];
    let modified_contents: Vec<&str> = vec!["a", "f", "c"];
    let diff = Diff::new(&original_contents, &modified_contents);

    let report = DiffReport::create(diff);
    let got = report.text().clone();
    let want = "< b\n> f\n< d\n< e\n";

    assert_eq!(got, want);
}

#[test]
fn new_grid() {
    let grid = Grid::new(1, 1);
    assert_eq!(grid.shape(), (2, 2));
    for i in 0..2 {
        for j in 0..2 {
            assert_eq!(grid.get(i, j), 0);
        }
    }
}

#[test]
fn access_elements_from_grid() {
    let mut grid = Grid::new(1, 1);
    grid.set(0, 0, 1);
    grid.set(0, 1, 2);
    grid.set(1, 0, 3);
    grid.set(1, 1, 4);

    assert_eq!(grid.get(0, 0), 1);
    assert_eq!(grid.get(0, 1), 2);
    assert_eq!(grid.get(1, 0), 3);
    assert_eq!(grid.get(1, 1), 4);

    let new_grid = grid;
    assert_eq!(new_grid.get(0, 0), 1);
}

#[test]
#[should_panic]
fn panics_when_out_of_bounds_indexes() {
    let mut grid = Grid::new(1, 1);
    grid.set(0, 0, 1);
    grid.set(0, 1, 2);
    grid.set(1, 0, 3);
    grid.set(1, 1, 4);

    let out_of_bounds = grid.get(2, 2);
    println!("{}", out_of_bounds);
}

#[test]
fn test_lcs() {
    let seqx: Vec<&str> = vec!["a", "c", "b", "c", "f"];
    let seqy: Vec<&str> = vec!["a", "b", "c", "d", "a", "f"];

    let want: Vec<u32> = vec![
        0, 0, 0, 0, 0, 0, 0, 0, 1, 1, 1, 1, 1, 1, 0, 1, 1, 2, 2, 2, 2, 0, 1, 2, 2, 2, 2, 2, 0,
        1, 2, 3, 3, 3, 3, 0, 1, 2, 3, 3, 3, 4,
    ];
    let result = lcs(&seqx, &seqy);
    assert_eq!(result.shape(), (seqx.len() + 1, seqy.len() + 1));
    let cols = seqy.len() + 1;
    for i in 0..seqx.len() + 1 {
        for j in 0..cols {
            assert_eq!(result.get(i, j), want[i * cols + j]);
        }
    }
}

#[test]
fn lcs_length_of_interleaved_sequences() {
    let a: Vec<&str> = vec!["a", "c", "b", "c", "f"];
    let b: Vec<&str> = vec!["a", "b", "c", "d", "a", "f"];
    let grid = lcs(&a, &b);
    assert_eq!(grid.get(5, 6), 4);
}

#[test]
fn diff_of_identical_sequences_is_empty() {
    let lines: Vec<&str> = vec!["one line", "another line", "a third one"];
    let report = DiffReport::create(Diff::new(&lines, &lines));
    assert_eq!(report.text().clone(), "");
}

#[test]
fn diff_against_empty_original_adds_every_line() {
    let a: Vec<&str> = vec![];
    let b: Vec<&str> = vec!["x", "y"];
    let report = DiffReport::create(Diff::new(&a, &b));
    assert_eq!(report.text().clone(), "> x\n> y\n");
}

#[test]
fn diff_against_empty_modified_removes_every_line() {
    let a: Vec<&str> = vec!["x", "y"];
    let b: Vec<&str> = vec![];
    let report = DiffReport::create(Diff::new(&a, &b));
    assert_eq!(report.text().clone(), "< x\n< y\n");
}

#[test]
fn changed_line_counts_match_grid_corner() {
    let a: Vec<&str> = vec!["a", "b", "c", "d", "e"];
    let b: Vec<&str> = vec!["a", "f", "c"];
    let grid = lcs(&a, &b);
    let common = grid.get(a.len(), b.len()) as usize;
    let report = DiffReport::create(Diff::new(&a, &b));
    assert_eq!(count_marked(report.text(), "< "), a.len() - common);
    assert_eq!(count_marked(report.text(), "> "), b.len() - common);
}

#[test]
fn swapping_inputs_swaps_marker_counts() {
    let a: Vec<&str> = vec!["a", "b", "c", "d", "e"];
    let b: Vec<&str> = vec!["a", "f", "c"];
    let forward = DiffReport::create(Diff::new(&a, &b));
    let backward = DiffReport::create(Diff::new(&b, &a));
    assert_eq!(
        count_marked(forward.text(), "> "),
        count_marked(backward.text(), "< ")
    );
    assert_eq!(
        count_marked(forward.text(), "< "),
        count_marked(backward.text(), "> ")
    );
}

#[test]
fn tie_break_favors_additions() {
    let a: Vec<&str> = vec!["x", "y"];
    let b: Vec<&str> = vec!["y", "x"];
    let report = DiffReport::create(Diff::new(&a, &b));
    assert_eq!(report.text().clone(), "< x\n> x\n");
}

#[test]
fn renders_whole_lines() {
    let a: Vec<&str> = vec!["hello there"];
    let b: Vec<&str> = vec!["world"];
    let report = DiffReport::create(Diff::new(&a, &b));
    assert_eq!(report.text().clone(), "< hello there\n> world\n");
}

#[test]
fn grid_shape_invariant() {
    let shapes: Vec<(usize, usize)> = vec![(0, 0), (0, 3), (4, 0), (3, 5)];
    for (m, n) in shapes {
        let g = Grid::new(m, n);
        assert_eq!(g.shape(), (m + 1, n + 1));
        for i in 0..m + 1 {
            for j in 0..n + 1 {
                assert_eq!(g.get(i, j), 0);
            }
        }
    }
}

#[test]
fn parses_two_paths() {
    let args: Vec<String> = vec![
        "diffy".to_string(),
        "original.txt".to_string(),
        "modified.txt".to_string(),
    ];
    let (original_path, modified_path) = parse_arguments(&args).unwrap();
    assert_eq!(original_path, "original.txt");
    assert_eq!(modified_path, "modified.txt");
}

#[test]
fn rejects_missing_arguments() {
    let args: Vec<String> = vec!["diffy".to_string(), "original.txt".to_string()];
    let result = parse_arguments(&args);
    assert!(matches!(result, Err(ArgsError::NotEnoughArguments)));
}
