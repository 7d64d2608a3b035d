use streamchat::errors::ParseError;
use streamchat::grid::{parse_hex_row, Grid, Pos};

#[test]
fn new_grid_is_zeroed() {
    let g = Grid::new(3, 2);
    assert_eq!(g.width, 3);
    assert_eq!(g.height, 2);
    assert_eq!(g.cells, vec![vec![0u8; 3]; 2]);
}

#[test]
fn get_reports_cells_and_bounds() {
    let g = Grid::from_rows(vec![vec![1u8, 2], vec![3, 4]]).unwrap();
    assert_eq!(g.get(Pos(0, 1)), Some(2));
    assert_eq!(g.get(Pos(1, 0)), Some(3));
    assert_eq!(g.get(Pos(2, 0)), None);
    assert_eq!(g.get(Pos(0, 2)), None);
}

#[test]
fn neighbors_clamp_at_the_low_edges() {
    let g = Grid::new(3, 3);
    // At the top-left corner the clamped up and left probes are the corner
    // itself, so it appears twice among its own neighbors.
    assert_eq!(
        g.neighbors(Pos(0, 0)),
        vec![Pos(0, 0), Pos(1, 0), Pos(0, 0), Pos(0, 1)]
    );
    assert_eq!(
        g.neighbors(Pos(1, 1)),
        vec![Pos(0, 1), Pos(2, 1), Pos(1, 0), Pos(1, 2)]
    );
    assert_eq!(g.neighbors(Pos(2, 2)), vec![Pos(1, 2), Pos(2, 1)]);
}

#[test]
fn generate_random_forces_the_corners() {
    let g = Grid::generate_random(4, 3);
    assert_eq!(g.width, 4);
    assert_eq!(g.height, 3);
    assert_eq!(g.cells[0][0], 0x00);
    assert_eq!(g.cells[2][3], 0xFF);
    let tiny = Grid::generate_random(1, 1);
    assert_eq!(tiny.cells[0][0], 0xFF);
}

#[test]
fn parse_hex_row_reads_tokens() {
    assert_eq!(parse_hex_row("00 FF 1a"), Ok(vec![0x00, 0xFF, 0x1A]));
    assert_eq!(parse_hex_row("  7\t0ff "), Ok(vec![0x07, 0xFF]));
    assert_eq!(parse_hex_row(""), Ok(vec![]));
    assert_eq!(parse_hex_row("zz"), Err(ParseError::InvalidHexDigit));
    assert_eq!(parse_hex_row("100"), Err(ParseError::InvalidHexDigit));
}

#[test]
fn from_rows_checks_shape() {
    assert_eq!(Grid::from_rows(vec![]).err(), Some(ParseError::EmptyMap));
    // A row narrower than the first would put search cells out of range.
    assert_eq!(
        Grid::from_rows(vec![vec![1u8, 2], vec![3]]).err(),
        Some(ParseError::RaggedMap)
    );
    let g = Grid::from_rows(vec![vec![1u8, 2], vec![3, 4]]).unwrap();
    assert_eq!((g.width, g.height), (2, 2));
}

#[test]
fn from_rows_takes_width_from_the_first_row() {
    // The first row sets the width; wider later rows are kept whole and
    // their extra cells stay out of the search.
    let g = Grid::from_rows(vec![vec![0u8, 1], vec![2, 3, 99]]).unwrap();
    assert_eq!((g.width, g.height), (2, 2));
    assert_eq!(g.cells[1], vec![2, 3, 99]);
    assert_eq!(g.get(Pos(1, 1)), Some(3));
    assert_eq!(g.get(Pos(1, 2)), None);
    let (path, cost) = g.dijkstra(false);
    assert_eq!(path, vec![Pos(0, 0), Pos(1, 0), Pos(1, 1)]);
    assert_eq!(cost, 5);
    assert_eq!(g.to_text(), "00 01\n02 03 63\n");
}

#[test]
fn to_text_renders_uppercase_rows() {
    let g = Grid::from_rows(vec![vec![0xDEu8, 0xAD], vec![0xBE, 0xEF]]).unwrap();
    assert_eq!(g.to_text(), "DE AD\nBE EF\n");
}

#[test]
fn map_text_round_trip() {
    let g = Grid::from_rows(vec![vec![0x00u8, 0x1F], vec![0xA0, 0xFF]]).unwrap();
    let text = g.to_text();
    let mut rows = Vec::new();
    for line in text.split('\n') {
        let row = parse_hex_row(line).unwrap();
        if !row.is_empty() {
            rows.push(row);
        }
    }
    let back = Grid::from_rows(rows).unwrap();
    assert_eq!(back.cells, g.cells);
}

#[test]
fn dijkstra_finds_the_expected_paths() {
    let g = Grid::from_rows(vec![vec![0u8, 1], vec![2, 3]]).unwrap();
    let (min_path, min_cost) = g.dijkstra(false);
    assert_eq!(min_path, vec![Pos(0, 0), Pos(1, 0), Pos(1, 1)]);
    assert_eq!(min_cost, 5);
    let (max_path, max_cost) = g.dijkstra(true);
    assert_eq!(max_path, vec![Pos(0, 0), Pos(0, 1), Pos(1, 1)]);
    assert_eq!(max_cost, 3);
}

#[test]
fn dijkstra_path_is_valid_on_a_larger_grid() {
    let rows: Vec<Vec<u8>> = (0..5)
        .map(|r| (0..7).map(|c| ((r * 31 + c * 17) % 251) as u8).collect())
        .collect();
    let g = Grid::from_rows(rows).unwrap();
    let (path, _cost) = g.dijkstra(false);
    assert!(!path.is_empty());
    assert_eq!(path[0], Pos(0, 0));
    assert_eq!(*path.last().unwrap(), Pos(4, 6));
    for w in path.windows(2) {
        let dr = w[0].0.abs_diff(w[1].0);
        let dc = w[0].1.abs_diff(w[1].1);
        assert!(dr + dc <= 1);
    }
}

#[test]
fn dijkstra_on_single_cell_grid() {
    let g = Grid::from_rows(vec![vec![9u8]]).unwrap();
    let (path, cost) = g.dijkstra(false);
    assert_eq!(path, vec![Pos(0, 0)]);
    assert_eq!(cost, 0);
}
