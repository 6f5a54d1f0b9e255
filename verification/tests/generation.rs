use gridwalks::grid::{Grid, GridError};
use gridwalks::render::{generate_svg, CELL_SIZE};
use gridwalks::rng::RandomSource;
use gridwalks::walks::{find_available_starts, generate_walks, Walk, MAX_EXTRA_STEPS};

fn adjacent(a: (usize, usize), b: (usize, usize)) -> bool {
    let dx = b.0 as i64 - a.0 as i64;
    let dy = b.1 as i64 - a.1 as i64;
    dx.abs() <= 1 && dy.abs() <= 1 && !(dx == 0 && dy == 0)
}

fn check_walks(cells: &Vec<Vec<i32>>, walks: &Vec<Walk>) {
    for w in walks {
        assert!(!w.points.is_empty());
        assert!(w.points.len() <= MAX_EXTRA_STEPS + 1);
        for (i, p) in w.points.iter().enumerate() {
            assert!(p.1 < cells.len() && p.0 < cells[0].len());
            assert_eq!(cells[p.1][p.0], 1);
            for q in &w.points[i + 1..] {
                assert_ne!(p, q);
            }
            if i + 1 < w.points.len() {
                assert!(adjacent(*p, w.points[i + 1]));
            }
        }
    }
}

#[test]
fn malformed_empty_grid() {
    let cells: Vec<Vec<i32>> = vec![];
    assert_eq!(Grid::new(&cells).err(), Some(GridError::MalformedGrid));
}

#[test]
fn malformed_empty_row() {
    let cells: Vec<Vec<i32>> = vec![vec![]];
    assert_eq!(Grid::new(&cells).err(), Some(GridError::MalformedGrid));
}

#[test]
fn malformed_ragged_rows() {
    let cells = vec![vec![1, 1], vec![1]];
    assert_eq!(Grid::new(&cells).err(), Some(GridError::MalformedGrid));
}

#[test]
fn grid_lookup() {
    let cells = vec![vec![0, 1], vec![1, 0]];
    let g = Grid::new(&cells).unwrap();
    assert_eq!(g.num_cols(), 2);
    assert_eq!(g.num_rows(), 2);
    assert!(!g.is_fillable(0, 0));
    assert!(g.is_fillable(1, 0));
    assert!(g.is_fillable(0, 1));
    assert!(!g.is_fillable(1, 1));
    assert!(!g.is_visited(0, 1));
}

#[test]
fn available_starts_row_major() {
    let cells = vec![vec![0, 1], vec![1, 1]];
    let g = Grid::new(&cells).unwrap();
    let starts = find_available_starts(&g);
    assert_eq!(starts, vec![(1, 0), (0, 1), (1, 1)]);
}

#[test]
fn available_starts_skip_visited() {
    let cells = vec![vec![1, 1]];
    let mut g = Grid::new(&cells).unwrap();
    g.mark(0, 0);
    let starts = find_available_starts(&g);
    assert_eq!(starts, vec![(1, 0)]);
}

#[test]
fn single_cell_single_walk() {
    // A 1x1 grid with its one cell fillable: exactly one walk, one point.
    let cells = vec![vec![1]];
    let mut g = Grid::new(&cells).unwrap();
    let mut rng = RandomSource::seeded(7);
    let walks = generate_walks(&mut g, &mut rng);
    assert_eq!(walks.len(), 1);
    assert_eq!(walks[0].points, vec![(0, 0)]);
    assert!(g.is_visited(0, 0));
}

#[test]
fn all_blocked_no_walks() {
    let cells = vec![vec![0, 0, 0], vec![0, 0, 0]];
    let mut g = Grid::new(&cells).unwrap();
    let mut rng = RandomSource::seeded(1);
    let walks = generate_walks(&mut g, &mut rng);
    assert_eq!(walks.len(), 0);
    for y in 0..2 {
        for x in 0..3 {
            assert!(!g.is_visited(x, y));
        }
    }
}

#[test]
fn all_blocked_document_dimensions() {
    let cells = vec![vec![0, 0, 0, 0], vec![0, 0, 0, 0]];
    let mut g = Grid::new(&cells).unwrap();
    let mut rng = RandomSource::seeded(2);
    let doc = generate_svg(&mut g, &mut rng);
    assert_eq!(doc.strokes.len(), 0);
    assert_eq!(doc.width, 4 * CELL_SIZE);
    assert_eq!(doc.height, 2 * CELL_SIZE);
}

#[test]
fn ring_around_blocked_center() {
    // A 3x3 grid, fillable everywhere but the center.
    let cells = vec![vec![1, 1, 1], vec![1, 0, 1], vec![1, 1, 1]];
    let mut g = Grid::new(&cells).unwrap();
    let mut rng = RandomSource::seeded(11);
    let walks = generate_walks(&mut g, &mut rng);
    check_walks(&cells, &walks);
    assert!(!walks.is_empty());
    let total: usize = walks.iter().map(|w| w.points.len()).sum();
    assert_eq!(total, 8);
    for w in &walks {
        assert!(!w.points.contains(&(1, 1)));
    }
    assert!(!g.is_visited(1, 1));
    for y in 0..3 {
        for x in 0..3 {
            if (x, y) != (1, 1) {
                assert!(g.is_visited(x, y));
            }
        }
    }
}

#[test]
fn coverage_and_length_bound() {
    let cells = vec![
        vec![1, 1, 1, 1, 1, 1, 1, 1],
        vec![1, 1, 0, 0, 1, 1, 1, 1],
        vec![1, 1, 0, 0, 1, 1, 1, 1],
        vec![1, 1, 1, 1, 1, 1, 0, 1],
        vec![1, 1, 1, 1, 1, 1, 1, 1],
    ];
    let mut g = Grid::new(&cells).unwrap();
    let mut rng = RandomSource::seeded(99);
    let walks = generate_walks(&mut g, &mut rng);
    check_walks(&cells, &walks);
    let mut seen = vec![vec![false; 8]; 5];
    for w in &walks {
        for p in &w.points {
            assert!(!seen[p.1][p.0], "a cell appears in two walks");
            seen[p.1][p.0] = true;
        }
    }
    for y in 0..5 {
        for x in 0..8 {
            assert_eq!(g.is_visited(x, y), cells[y][x] == 1);
            assert_eq!(seen[y][x], cells[y][x] == 1);
        }
    }
}

#[test]
fn seeded_runs_identical() {
    // Two runs from equal seeds over equal grids emit identical walks and
    // identical documents.
    let cells = vec![
        vec![0, 1, 1, 1, 0],
        vec![1, 1, 0, 1, 1],
        vec![1, 1, 1, 1, 1],
    ];
    let mut g1 = Grid::new(&cells).unwrap();
    let mut g2 = Grid::new(&cells).unwrap();
    let mut r1 = RandomSource::seeded(424242);
    let mut r2 = RandomSource::seeded(424242);
    let w1 = generate_walks(&mut g1, &mut r1);
    let w2 = generate_walks(&mut g2, &mut r2);
    assert_eq!(w1.len(), w2.len());
    for (a, b) in w1.iter().zip(w2.iter()) {
        assert_eq!(a.points, b.points);
    }
    let mut g3 = Grid::new(&cells).unwrap();
    let mut g4 = Grid::new(&cells).unwrap();
    let mut r3 = RandomSource::seeded(5);
    let mut r4 = RandomSource::seeded(5);
    let d3 = generate_svg(&mut g3, &mut r3);
    let d4 = generate_svg(&mut g4, &mut r4);
    assert_eq!(d3.width, d4.width);
    assert_eq!(d3.height, d4.height);
    assert_eq!(d3.strokes.len(), d4.strokes.len());
    for (a, b) in d3.strokes.iter().zip(d4.strokes.iter()) {
        assert_eq!(a.points, b.points);
        assert_eq!(a.path_data, b.path_data);
    }
}

#[test]
fn external_source_coverage() {
    // The thread-local generator drives a full run; every fillable cell is
    // covered whatever it returned.
    let cells = vec![vec![1, 1, 0], vec![0, 1, 1]];
    let mut g = Grid::new(&cells).unwrap();
    let mut rng = RandomSource::from_entropy();
    let walks = generate_walks(&mut g, &mut rng);
    check_walks(&cells, &walks);
    for y in 0..2 {
        for x in 0..3 {
            assert_eq!(g.is_visited(x, y), cells[y][x] == 1);
        }
    }
}

#[test]
fn document_strokes_scaled() {
    let cells = vec![vec![1]];
    let mut g = Grid::new(&cells).unwrap();
    let mut rng = RandomSource::seeded(3);
    let doc = generate_svg(&mut g, &mut rng);
    assert_eq!(doc.width, CELL_SIZE);
    assert_eq!(doc.height, CELL_SIZE);
    assert_eq!(doc.strokes.len(), 1);
    assert_eq!(doc.strokes[0].points, vec![(0, 0)]);
    assert_eq!(doc.strokes[0].path_data, "M0,0");
}
