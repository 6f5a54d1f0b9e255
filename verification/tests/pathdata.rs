use gridwalks::grid::Grid;
use gridwalks::render::{generate_svg, parse_path_data, path_data, CELL_SIZE};
use gridwalks::rng::RandomSource;

#[test]
fn path_data_exact_text() {
    let pts = vec![(0, 0), (10, 20), (300, 4)];
    let s = path_data(&pts);
    assert_eq!(s, "M0,0 L10,20 L300,4");
}

#[test]
fn path_data_single_point() {
    let pts = vec![(70, 120)];
    let s = path_data(&pts);
    assert_eq!(s, "M70,120");
}

#[test]
fn parse_round_trip_concrete() {
    let pts = vec![(5, 6), (15, 7), (0, 1000)];
    let s = path_data(&pts);
    let back = parse_path_data(&s).unwrap();
    assert_eq!(back, pts);
}

#[test]
fn parse_simple() {
    assert_eq!(parse_path_data("M5,6"), Some(vec![(5, 6)]));
    assert_eq!(parse_path_data("M12,34 L56,78"), Some(vec![(12, 34), (56, 78)]));
}

#[test]
fn parse_rejects_malformed() {
    assert_eq!(parse_path_data(""), None);
    assert_eq!(parse_path_data("X1,2"), None);
    assert_eq!(parse_path_data("M"), None);
    assert_eq!(parse_path_data("M5"), None);
    assert_eq!(parse_path_data("M5,"), None);
    assert_eq!(parse_path_data("M5,6 "), None);
    assert_eq!(parse_path_data("M5,6 L"), None);
    assert_eq!(parse_path_data("M5,6 L7"), None);
    assert_eq!(parse_path_data("M5,6L7,8"), None);
    assert_eq!(parse_path_data("M5,6 L7,8 "), None);
}

#[test]
fn parse_rejects_oversized_value() {
    // One more digit than usize::MAX has: well-formed text, value too big.
    let huge = format!("M1,2 L{}0,3", usize::MAX);
    assert_eq!(parse_path_data(&huge), None);
}

#[test]
fn generated_strokes_round_trip() {
    // Every stroke of a generated document parses back to its own scaled
    // points, which are the walk's coordinates times the cell size.
    let cells = vec![
        vec![1, 1, 1, 0, 1],
        vec![1, 0, 1, 1, 1],
        vec![1, 1, 1, 0, 1],
    ];
    let mut g = Grid::new(&cells).unwrap();
    let mut rng = RandomSource::seeded(2024);
    let doc = generate_svg(&mut g, &mut rng);
    assert!(doc.strokes.len() >= 1);
    for st in &doc.strokes {
        let back = parse_path_data(&st.path_data).unwrap();
        assert_eq!(back, st.points);
        for p in &st.points {
            assert_eq!(p.0 % CELL_SIZE, 0);
            assert_eq!(p.1 % CELL_SIZE, 0);
            assert!(p.0 / CELL_SIZE < 5 && p.1 / CELL_SIZE < 3);
        }
    }
}
