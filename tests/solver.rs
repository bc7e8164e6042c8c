use wfc::coeff_matrix::{copy_tiles, has_tile, CoEffMatrix, Matrix};
use wfc::compat::{has_rule, Compat};
use wfc::coord::{valid_dirs, CoOrd};
use wfc::errors::MatrixError;
use wfc::learner::parse_matrix;
use wfc::model::Model;

const UP: CoOrd = CoOrd { x: 0, y: 1 };
const DOWN: CoOrd = CoOrd { x: 0, y: -1 };
const LEFT: CoOrd = CoOrd { x: -1, y: 0 };
const RIGHT: CoOrd = CoOrd { x: 1, y: 0 };

fn sample(rows: &[&str]) -> Matrix {
    Matrix(rows.iter().map(|r| r.chars().collect()).collect())
}

fn weight(ws: &[(char, u64)], t: char) -> Option<u64> {
    ws.iter().find(|p| p.0 == t).map(|p| p.1)
}

fn first_cell(_m: &CoEffMatrix) -> CoOrd {
    CoOrd { x: 0, y: 0 }
}

#[test]
fn valid_dirs_in_corner_and_middle() {
    assert_eq!(valid_dirs(&CoOrd { x: 0, y: 0 }, (3, 3)), vec![UP, RIGHT]);
    assert_eq!(valid_dirs(&CoOrd { x: 1, y: 1 }, (3, 3)), vec![UP, DOWN, LEFT, RIGHT]);
    assert_eq!(valid_dirs(&CoOrd { x: 2, y: 2 }, (3, 3)), vec![DOWN, LEFT]);
    assert_eq!(valid_dirs(&CoOrd { x: 0, y: 0 }, (1, 1)), Vec::<CoOrd>::new());
}

#[test]
fn learner_counts_occurrences() {
    let (_rules, ws) = parse_matrix(&sample(&["AA", "AB"])).unwrap();
    assert_eq!(weight(&ws, 'A'), Some(3));
    assert_eq!(weight(&ws, 'B'), Some(1));
    assert_eq!(ws.len(), 2);
}

#[test]
fn learner_records_observed_rules() {
    let (rules, _ws) = parse_matrix(&sample(&["AA", "AB"])).unwrap();
    let expected = vec![
        Compat { tile1: 'A', tile2: 'A', direction: RIGHT },
        Compat { tile1: 'A', tile2: 'A', direction: LEFT },
        Compat { tile1: 'A', tile2: 'A', direction: UP },
        Compat { tile1: 'A', tile2: 'B', direction: UP },
        Compat { tile1: 'A', tile2: 'A', direction: DOWN },
        Compat { tile1: 'B', tile2: 'A', direction: DOWN },
        Compat { tile1: 'A', tile2: 'B', direction: RIGHT },
        Compat { tile1: 'B', tile2: 'A', direction: LEFT },
    ];
    assert_eq!(rules.len(), expected.len());
    for r in &expected {
        assert!(rules.contains(r), "missing {:?}", r);
    }
    assert!(!has_rule(&rules, 'B', 'B', RIGHT));
    assert!(!has_rule(&rules, 'B', 'A', RIGHT));
}

#[test]
fn learner_refuses_ragged_sample() {
    let res = parse_matrix(&sample(&["AAA", "AB"]));
    assert!(matches!(res, Err(MatrixError::ParseError)));
}

#[test]
fn learner_accepts_empty_sample() {
    let (rules, ws) = parse_matrix(&Matrix(vec![])).unwrap();
    assert!(rules.is_empty());
    assert!(ws.is_empty());
}

#[test]
fn learner_is_deterministic() {
    let m = sample(&["ABC", "BCA", "CAB"]);
    let first = parse_matrix(&m).unwrap();
    let second = parse_matrix(&m).unwrap();
    assert_eq!(first.0, second.0);
    assert_eq!(first.1, second.1);
}

#[test]
fn new_grid_is_fully_uncertain() {
    let grid = CoEffMatrix::new((3, 2), vec![('A', 2), ('B', 5)]);
    assert_eq!(grid.width, 3);
    assert_eq!(grid.height, 2);
    assert_eq!(grid.coeff_matrix.len(), 6);
    for cell in &grid.coeff_matrix {
        assert_eq!(cell, &vec!['A', 'B']);
    }
    assert!(!grid.all_collapsed());
    assert!(grid.get_all_collapsed().is_empty());
}

#[test]
fn get_set_and_get_mut_use_row_major_cells() {
    let mut grid = CoEffMatrix::new((3, 2), vec![('A', 1), ('B', 1)]);
    grid.set(2, 1, vec!['B']);
    assert_eq!(grid.get(2, 1), &vec!['B']);
    assert_eq!(grid.coeff_matrix[5], vec!['B']);
    grid.get_mut(1, 0).retain(|c| *c == 'A');
    assert_eq!(grid.coeff_matrix[1], vec!['A']);
    assert_eq!(grid.get_all_collapsed(), vec!['A', 'B']);
}

#[test]
fn constrain_removes_one_tile() {
    let mut grid = CoEffMatrix::new((2, 2), vec![('A', 1), ('B', 1), ('C', 1)]);
    assert_eq!(grid.constrain(CoOrd { x: 1, y: 0 }, &'B'), Ok(()));
    assert_eq!(grid.get(1, 0), &vec!['A', 'C']);
    assert_eq!(grid.get(0, 0), &vec!['A', 'B', 'C']);
}

#[test]
fn constrain_missing_tile_is_an_error() {
    let mut grid = CoEffMatrix::new((2, 2), vec![('A', 1), ('B', 1)]);
    grid.constrain(CoOrd { x: 0, y: 1 }, &'A').unwrap();
    assert_eq!(grid.constrain(CoOrd { x: 0, y: 1 }, &'A'), Err(MatrixError::MissingTile));
    assert_eq!(grid.get(0, 1), &vec!['B']);
}

#[test]
fn cell_total_sums_candidate_weights() {
    let mut grid = CoEffMatrix::new((1, 1), vec![('A', 2), ('B', 7), ('C', 4)]);
    assert_eq!(grid.cell_total(0, 0), 13);
    grid.constrain(CoOrd { x: 0, y: 0 }, &'B').unwrap();
    assert_eq!(grid.cell_total(0, 0), 6);
}

#[test]
fn roulette_slots_follow_weights() {
    let mut chosen = Vec::new();
    for r in 0..4u64 {
        let mut grid = CoEffMatrix::new((1, 1), vec![('A', 1), ('B', 3)]);
        grid.collapse_with(CoOrd { x: 0, y: 0 }, r);
        assert_eq!(grid.get(0, 0).len(), 1);
        chosen.push(grid.get(0, 0)[0]);
    }
    assert_eq!(chosen, vec!['A', 'B', 'B', 'B']);
}

#[test]
fn roulette_skips_removed_tiles() {
    let mut grid = CoEffMatrix::new((1, 1), vec![('A', 2), ('B', 3), ('C', 5)]);
    grid.constrain(CoOrd { x: 0, y: 0 }, &'B').unwrap();
    let mut g2 = CoEffMatrix::new((1, 1), vec![('A', 2), ('B', 3), ('C', 5)]);
    g2.constrain(CoOrd { x: 0, y: 0 }, &'B').unwrap();
    grid.collapse_with(CoOrd { x: 0, y: 0 }, 1);
    g2.collapse_with(CoOrd { x: 0, y: 0 }, 2);
    assert_eq!(grid.get(0, 0), &vec!['A']);
    assert_eq!(g2.get(0, 0), &vec!['C']);
}

#[test]
fn weighted_collapse_distribution() {
    let mut a = 0u32;
    let mut b = 0u32;
    for _ in 0..4000 {
        let mut grid = CoEffMatrix::new((1, 1), vec![('A', 1), ('B', 3)]);
        grid.collapse(CoOrd { x: 0, y: 0 });
        match grid.get(0, 0)[0] {
            'A' => a += 1,
            'B' => b += 1,
            other => panic!("unexpected tile {}", other),
        }
    }
    assert_eq!(a + b, 4000);
    let ratio = b as f64 / a as f64;
    assert!(ratio > 2.4 && ratio < 3.7, "ratio {}", ratio);
}

#[test]
fn collapse_keeps_a_candidate() {
    for _ in 0..50 {
        let mut grid = CoEffMatrix::new((2, 1), vec![('A', 1), ('B', 1), ('C', 1)]);
        grid.constrain(CoOrd { x: 1, y: 0 }, &'A').unwrap();
        grid.collapse(CoOrd { x: 1, y: 0 });
        let t = grid.get(1, 0)[0];
        assert!(t == 'B' || t == 'C');
        assert_eq!(grid.get(1, 0).len(), 1);
        assert_eq!(grid.get(0, 0).len(), 3);
    }
}

#[test]
fn copy_and_membership_helpers() {
    let v = vec!['x', 'y'];
    assert_eq!(copy_tiles(&v), v);
    assert!(has_tile(&v, 'y'));
    assert!(!has_tile(&v, 'z'));
}

fn stripes() -> (Vec<Compat>, Vec<(char, u64)>) {
    parse_matrix(&sample(&["AB", "AB"])).unwrap()
}

fn checkers() -> (Vec<Compat>, Vec<(char, u64)>) {
    parse_matrix(&sample(&["ABAB", "BABA"])).unwrap()
}

#[test]
fn propagate_prunes_neighbours() {
    let (rules, ws) = stripes();
    let mut grid = CoEffMatrix::new((2, 1), ws);
    grid.set(0, 0, vec!['A']);
    let mut model = Model::new(grid, rules);
    assert_eq!(model.propagate(CoOrd { x: 0, y: 0 }), Ok(()));
    assert_eq!(model.coeff.get(1, 0), &vec!['B']);
}

#[test]
fn propagate_reaches_a_fixpoint() {
    let (rules, ws) = stripes();
    let mut grid = CoEffMatrix::new((2, 2), ws);
    grid.set(0, 0, vec!['A']);
    let mut model = Model::new(grid, rules);
    assert_eq!(model.propagate(CoOrd { x: 0, y: 0 }), Ok(()));
    let before = model.coeff.coeff_matrix.clone();
    assert_eq!(before, vec![vec!['A'], vec!['B'], vec!['A'], vec!['B']]);
    for y in 0..2 {
        for x in 0..2 {
            assert_eq!(model.propagate(CoOrd { x, y }), Ok(()));
        }
    }
    assert_eq!(model.coeff.coeff_matrix, before);
}

#[test]
fn propagate_reports_contradiction() {
    let (rules, ws) = stripes();
    let mut grid = CoEffMatrix::new((3, 1), ws);
    grid.set(0, 0, vec!['A']);
    grid.set(2, 0, vec!['A']);
    let mut model = Model::new(grid, rules);
    assert_eq!(model.propagate(CoOrd { x: 0, y: 0 }), Err(MatrixError::Contradiction));
    assert!(model.coeff.coeff_matrix.iter().any(|c| c.is_empty()));
}

#[test]
fn iterate_collapses_the_chosen_cell() {
    let (rules, ws) = checkers();
    let grid = CoEffMatrix::new((4, 1), ws);
    let mut model = Model::new(grid, rules);
    assert_eq!(model.iterate(CoOrd { x: 0, y: 0 }), Ok(()));
    let first = model.coeff.get(0, 0)[0];
    let expect = if first == 'A' { vec!['A', 'B', 'A', 'B'] } else { vec!['B', 'A', 'B', 'A'] };
    assert!(model.coeff.all_collapsed());
    assert_eq!(model.coeff.get_all_collapsed(), expect);
}

#[test]
fn iterate_on_empty_cell_is_a_contradiction() {
    let (rules, ws) = stripes();
    let mut grid = CoEffMatrix::new((2, 1), ws);
    grid.set(1, 0, vec![]);
    let mut model = Model::new(grid, rules);
    assert_eq!(model.iterate(CoOrd { x: 1, y: 0 }), Err(MatrixError::Contradiction));
}

#[test]
fn first_open_cell_scans_in_grid_order() {
    let (rules, ws) = stripes();
    let mut grid = CoEffMatrix::new((2, 2), ws);
    grid.set(0, 0, vec!['A']);
    grid.set(1, 0, vec!['B']);
    let model = Model::new(grid, rules);
    assert_eq!(model.first_open_cell(), Some(CoOrd { x: 0, y: 1 }));
}

fn obeys_rules(out: &[char], w: usize, h: usize, rules: &Vec<Compat>) -> bool {
    for y in 0..h {
        for x in 0..w {
            let here = out[y * w + x];
            for d in valid_dirs(&CoOrd { x: x as i32, y: y as i32 }, (w as i32, h as i32)) {
                let nx = (x as i32 + d.x) as usize;
                let ny = (y as i32 + d.y) as usize;
                if !has_rule(rules, here, out[ny * w + nx], d) {
                    return false;
                }
            }
        }
    }
    true
}

#[test]
fn end_to_end_two_by_two() {
    let m = sample(&["AA", "AB"]);
    let (rules, ws) = parse_matrix(&m).unwrap();
    assert_eq!(weight(&ws, 'A'), Some(3));
    assert_eq!(weight(&ws, 'B'), Some(1));
    let mut solved = 0;
    for _ in 0..200 {
        let grid = CoEffMatrix::new((2, 2), ws.clone());
        let mut model = Model::new(grid, rules.clone());
        match model.run(first_cell) {
            Ok(out) => {
                solved += 1;
                assert_eq!(out.len(), 4);
                assert!(model.coeff.all_collapsed());
                assert!(obeys_rules(&out, 2, 2, &rules), "{:?}", out);
                assert!(out == vec!['A', 'A', 'A', 'A'] || out == vec!['A', 'A', 'A', 'B'], "{:?}", out);
            }
            Err(e) => assert_eq!(e, MatrixError::Contradiction),
        }
    }
    assert!(solved > 0);
}

#[test]
fn run_fills_a_larger_grid() {
    let (rules, ws) = checkers();
    let grid = CoEffMatrix::new((6, 5), ws);
    let mut model = Model::new(grid, rules.clone());
    let out = model.run(first_cell).unwrap();
    assert_eq!(out.len(), 30);
    assert!(obeys_rules(&out, 6, 5, &rules));
}

#[test]
fn run_with_single_tile() {
    let (rules, ws) = parse_matrix(&sample(&["AA", "AA"])).unwrap();
    let grid = CoEffMatrix::new((3, 3), ws);
    let mut model = Model::new(grid, rules);
    assert_eq!(model.run(first_cell).unwrap(), vec!['A'; 9]);
}

#[test]
fn error_messages() {
    assert_eq!(MatrixError::ParseError.message(), "example matrix error");
    assert_eq!(MatrixError::ArgsError.message(), "args error");
}

#[test]
fn run_reports_an_emptied_grid() {
    let (rules, ws) = stripes();
    let mut grid = CoEffMatrix::new((2, 1), ws);
    grid.set(0, 0, vec!['A']);
    grid.set(1, 0, vec![]);
    let mut model = Model::new(grid, rules);
    assert_eq!(model.first_open_cell(), None);
    assert_eq!(model.run(first_cell), Err(MatrixError::Contradiction));
}

#[test]
fn propagate_on_consistent_grid_changes_nothing() {
    let (rules, ws) = stripes();
    let mut grid = CoEffMatrix::new((2, 1), ws);
    grid.set(0, 0, vec!['A']);
    grid.set(1, 0, vec!['B']);
    let mut model = Model::new(grid, rules);
    assert_eq!(model.propagate(CoOrd { x: 1, y: 0 }), Ok(()));
    assert_eq!(model.coeff.coeff_matrix, vec![vec!['A'], vec!['B']]);
}

#[test]
fn learner_single_cell_sample() {
    let (rules, ws) = parse_matrix(&sample(&["A"])).unwrap();
    assert!(rules.is_empty());
    assert_eq!(ws, vec![('A', 1)]);
}

#[test]
fn learned_rules_are_symmetric() {
    let (rules, _ws) = parse_matrix(&sample(&["ABC", "CAB", "BBA"])).unwrap();
    for r in &rules {
        let back = CoOrd { x: -r.direction.x, y: -r.direction.y };
        assert!(has_rule(&rules, r.tile2, r.tile1, back), "{:?}", r);
    }
}

#[test]
fn mirrored_sample_swaps_left_and_right() {
    let (rules, ws) = parse_matrix(&sample(&["ABC", "CAB"])).unwrap();
    let (mrules, mws) = parse_matrix(&sample(&["CBA", "BAC"])).unwrap();
    for (t, w) in &ws {
        assert_eq!(weight(&mws, *t), Some(*w));
    }
    assert_eq!(ws.len(), mws.len());
    assert_eq!(rules.len(), mrules.len());
    for r in &mrules {
        let flipped = CoOrd { x: -r.direction.x, y: r.direction.y };
        assert!(has_rule(&rules, r.tile1, r.tile2, flipped), "{:?}", r);
    }
}

#[test]
fn propagate_twice_changes_nothing_more() {
    let (rules, ws) = checkers();
    let mut grid = CoEffMatrix::new((3, 2), ws);
    grid.set(1, 0, vec!['B']);
    let mut model = Model::new(grid, rules);
    assert_eq!(model.propagate(CoOrd { x: 1, y: 0 }), Ok(()));
    let once = model.coeff.coeff_matrix.clone();
    assert_eq!(model.propagate(CoOrd { x: 1, y: 0 }), Ok(()));
    assert_eq!(model.coeff.coeff_matrix, once);
    assert_eq!(once, vec![vec!['A'], vec!['B'], vec!['A'], vec!['B'], vec!['A'], vec!['B']]);
}
