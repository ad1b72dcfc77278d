use ocr_layout::words::{BoundingBox, RecognizedUnit, Word};
use ocr_layout::rows::group_into_rows;
use ocr_layout::splits::{detect_column_splits, scan_runs};
use ocr_layout::grid::{assign_to_columns, build_grid};
use ocr_layout::region::{compute_thresholds, reconstruct_grid, RegionContent};

fn word(text: &str, left: u32, top: u32, right: u32, bottom: u32) -> Word {
    Word { text: text.to_string(), left, top, right, bottom }
}

fn unit(text: &str, left: u32, top: u32, right: u32, bottom: u32) -> RecognizedUnit {
    RecognizedUnit {
        text: text.to_string(),
        bbox: Some(BoundingBox { left, top, right, bottom }),
    }
}

#[test]
fn single_row_no_gap_joins_cells() {
    let units = vec![unit("Name", 0, 0, 40, 10), unit("Smith", 45, 0, 90, 10)];
    let grid = reconstruct_grid(RegionContent::GeometricUnits(units));
    assert_eq!(grid, vec![vec!["Name Smith".to_string()]]);
}

#[test]
fn two_rows_split_into_two_columns() {
    let rows = vec![
        vec![word("A", 0, 0, 10, 10), word("1", 100, 0, 110, 10)],
        vec![word("B", 0, 0, 10, 10), word("2", 100, 0, 110, 10)],
    ];
    let splits = detect_column_splits(&rows, 8);
    assert_eq!(splits, vec![55]);
    let r0 = assign_to_columns(&rows[0], &splits, 2);
    let r1 = assign_to_columns(&rows[1], &splits, 2);
    assert_eq!(r0, vec!["A".to_string(), "1".to_string()]);
    assert_eq!(r1, vec!["B".to_string(), "2".to_string()]);
}

#[test]
fn vertical_threshold_separates_rows() {
    // centers 5 and 55: 50 length units apart, threshold 10 (doubled: 20)
    let words = vec![word("up", 0, 0, 10, 10), word("down", 0, 50, 10, 60)];
    let rows = group_into_rows(words, 20);
    assert_eq!(rows.len(), 2);
    assert_eq!(rows[0].len(), 1);
    assert_eq!(rows[0][0].text, "up");
    assert_eq!(rows[1][0].text, "down");
}

#[test]
fn near_centers_share_a_row_sorted_left_to_right() {
    let words = vec![word("right", 50, 2, 60, 12), word("left", 0, 0, 10, 10)];
    let rows = group_into_rows(words, 20);
    assert_eq!(rows.len(), 1);
    assert_eq!(rows[0][0].text, "left");
    assert_eq!(rows[0][1].text, "right");
}

#[test]
fn empty_unit_list_gives_empty_grid() {
    let grid = reconstruct_grid(RegionContent::GeometricUnits(vec![]));
    assert!(grid.is_empty());
    let grid2 = build_grid(vec![], 10, 10);
    assert!(grid2.is_empty());
}

#[test]
fn degenerate_and_boxless_units_are_dropped() {
    let units = vec![
        RecognizedUnit { text: "nobox".to_string(), bbox: None },
        unit("flat", 0, 5, 10, 5),
        unit("thin", 7, 0, 7, 9),
    ];
    let grid = reconstruct_grid(RegionContent::GeometricUnits(units));
    assert!(grid.is_empty());
}

#[test]
fn repeated_invocations_agree() {
    let make = || {
        vec![
            unit("Qty", 0, 0, 30, 12),
            unit("2", 0, 20, 10, 32),
            unit("Price", 100, 0, 140, 12),
            unit("9.99", 100, 20, 135, 32),
        ]
    };
    let g1 = reconstruct_grid(RegionContent::GeometricUnits(make()));
    let g2 = reconstruct_grid(RegionContent::GeometricUnits(make()));
    assert_eq!(g1, g2);
}

#[test]
fn grid_of_own_text_reproduces_grid() {
    let boxes = [(0u32, 0u32, 10u32, 10u32), (100, 0, 110, 10), (0, 100, 10, 110), (100, 100, 110, 110)];
    let texts = ["A", "1", "B", "2"];
    let units: Vec<RecognizedUnit> =
        texts.iter().zip(boxes.iter()).map(|(t, b)| unit(t, b.0, b.1, b.2, b.3)).collect();
    let grid = reconstruct_grid(RegionContent::GeometricUnits(units));
    assert_eq!(
        grid,
        vec![
            vec!["A".to_string(), "1".to_string()],
            vec!["B".to_string(), "2".to_string()],
        ]
    );
    // feed the grid's own flattened text back through the same boxes
    let flat: Vec<String> = grid.iter().flatten().cloned().collect();
    let units2: Vec<RecognizedUnit> =
        flat.iter().zip(boxes.iter()).map(|(t, b)| unit(t, b.0, b.1, b.2, b.3)).collect();
    let grid2 = reconstruct_grid(RegionContent::GeometricUnits(units2));
    assert_eq!(grid, grid2);
}

#[test]
fn every_unit_lands_in_exactly_one_cell() {
    let units = vec![
        unit("a", 0, 0, 10, 10),
        unit("b", 12, 1, 22, 11),
        unit("c", 200, 0, 220, 10),
        unit("d", 5, 40, 15, 50),
    ];
    let grid = reconstruct_grid(RegionContent::GeometricUnits(units));
    let mut found: Vec<String> = grid
        .iter()
        .flatten()
        .flat_map(|cell| cell.split_whitespace().map(|s| s.to_string()))
        .collect();
    found.sort();
    assert_eq!(found, vec!["a", "b", "c", "d"]);
}

#[test]
fn all_rows_have_the_same_cell_count() {
    let units = vec![
        unit("h1", 0, 0, 30, 10),
        unit("h2", 100, 0, 130, 10),
        unit("only", 10, 30, 25, 40),
        unit("x", 0, 60, 30, 70),
        unit("y", 100, 60, 130, 70),
    ];
    let grid = reconstruct_grid(RegionContent::GeometricUnits(units));
    assert!(!grid.is_empty());
    let w = grid[0].len();
    for row in &grid {
        assert_eq!(row.len(), w);
    }
}

#[test]
fn thresholds_follow_mean_height() {
    // heights 10 and 20: row threshold 0.6 * 15 = 9 (doubled 18), gap 0.8 * 15 = 12
    let words = vec![word("a", 0, 0, 10, 10), word("b", 0, 20, 10, 40)];
    assert_eq!(compute_thresholds(&words), (18, 12));
    // no words: fallback mean 12: doubled row threshold 14, gap ceil(9.6) = 10
    assert_eq!(compute_thresholds(&vec![]), (14, 10));
}

#[test]
fn scan_emits_midpoints_of_closed_runs_only() {
    assert_eq!(scan_runs(&vec![false, true, true, false], 2, 0), vec![2]);
    // a run of one is too narrow
    assert_eq!(scan_runs(&vec![false, true, false], 2, 0), Vec::<u64>::new());
    // a trailing open run borders the edge and marks no boundary
    assert_eq!(scan_runs(&vec![false, true, true], 2, 0), Vec::<u64>::new());
    // the offset shifts splits into original coordinates
    assert_eq!(scan_runs(&vec![false, true, true, true, false], 3, 40), vec![42]);
}

#[test]
fn single_column_fallback_when_words_share_every_position() {
    let words = vec![word("one", 0, 0, 50, 10), word("two", 0, 20, 50, 30)];
    let grid = build_grid(words, 10, 5);
    assert_eq!(grid, vec![vec!["one".to_string()], vec!["two".to_string()]]);
}
