use ocr_layout::lines::{build_grid_lines, trim_str};
use ocr_layout::parse::{parse_tsv_words, parse_u32_field, split_str};
use ocr_layout::prep::{png_data_url, scaled_dimensions};
use ocr_layout::region::{clamp_region, process_transcript, reconstruct_grid, RegionContent};

#[test]
fn whitespace_round_trip_aligns_columns() {
    let lines = vec!["Qty   Price".to_string(), "  2     9.99".to_string()];
    let grid = build_grid_lines(&lines);
    assert_eq!(
        grid,
        vec![
            vec!["Qty".to_string(), "Price".to_string()],
            vec!["2".to_string(), "9.99".to_string()],
        ]
    );
}

#[test]
fn empty_line_list_gives_empty_grid() {
    let grid = reconstruct_grid(RegionContent::PlainLines(vec![]));
    assert!(grid.is_empty());
}

#[test]
fn narrow_gaps_do_not_split_lines() {
    let lines = vec!["a b".to_string(), "c d".to_string()];
    let grid = build_grid_lines(&lines);
    assert_eq!(
        grid,
        vec![vec!["a b".to_string()], vec!["c d".to_string()]]
    );
}

#[test]
fn blank_lines_collapse_to_empty_cells() {
    let lines = vec!["   ".to_string(), "".to_string()];
    let grid = build_grid_lines(&lines);
    assert_eq!(grid, vec![vec!["".to_string()], vec!["".to_string()]]);
}

#[test]
fn stray_character_blocks_a_column_gap() {
    let lines = vec!["aa   bb".to_string(), "cc x dd".to_string()];
    let grid = build_grid_lines(&lines);
    assert_eq!(grid.len(), 2);
    assert_eq!(grid[0].len(), 1);
}

#[test]
fn trim_removes_surrounding_spaces_only() {
    assert_eq!(trim_str("  a b  "), "a b".to_string());
    assert_eq!(trim_str("ab"), "ab".to_string());
    assert_eq!(trim_str("    "), "".to_string());
    assert_eq!(trim_str(""), "".to_string());
}

#[test]
fn split_keeps_empty_pieces() {
    assert_eq!(split_str("a\tb\t", '\t'), vec!["a".to_string(), "b".to_string(), "".to_string()]);
    assert_eq!(split_str("", '\t'), vec!["".to_string()]);
}

#[test]
fn number_fields_read_as_digits_or_zero() {
    assert_eq!(parse_u32_field("1234"), 1234);
    assert_eq!(parse_u32_field("0"), 0);
    assert_eq!(parse_u32_field(""), 0);
    assert_eq!(parse_u32_field("12a4"), 0);
    assert_eq!(parse_u32_field("-7"), 0);
    assert_eq!(parse_u32_field("99999999999999999999"), u32::MAX);
}

#[test]
fn tsv_records_become_words() {
    let tsv = "level\tpage\tblock\tpar\tline\tword\tleft\ttop\twidth\theight\tconf\ttext\n\
               5\t1\t1\t1\t1\t1\t100\t200\t50\t20\t96\tHello\n\
               4\t1\t1\t1\t1\t0\t0\t0\t300\t40\t-1\t\n\
               5\t1\t1\t1\t1\t2\t160\t200\t40\t20\t91\t  World \n\
               5\t1\t1\t1\t1\t3\t210\t200\t5\t20\t11\t-1\n";
    let words = parse_tsv_words(tsv);
    assert_eq!(words.len(), 2);
    assert_eq!(words[0].text, "Hello");
    assert_eq!(words[0].left, 100);
    assert_eq!(words[0].top, 200);
    assert_eq!(words[0].right, 150);
    assert_eq!(words[0].bottom, 220);
    assert_eq!(words[1].text, "World");
    assert_eq!(words[1].left, 160);
}

#[test]
fn transcript_processing_passes_id_and_text_through() {
    let tsv = "header\n\
               5\t1\t1\t1\t1\t1\t0\t0\t40\t10\t90\tName\n\
               5\t1\t1\t1\t1\t2\t45\t0\t45\t10\t90\tSmith\n";
    let r = process_transcript("r1".to_string(), tsv, "Name Smith\n".to_string());
    assert_eq!(r.region_id, "r1");
    assert_eq!(r.text, "Name Smith\n");
    assert_eq!(r.columns, vec![vec!["Name Smith".to_string()]]);
}

#[test]
fn malformed_transcript_yields_empty_grid() {
    let r = process_transcript("r2".to_string(), "not a table at all", "x".to_string());
    assert!(r.columns.is_empty());
}

#[test]
fn crop_rectangles_clamp_to_image_bounds() {
    assert_eq!(clamp_region(50, 50, 100, 100, 80, 60), (50, 50, 30, 10));
    assert_eq!(clamp_region(200, 5, 10, 10, 80, 60), (79, 5, 1, 10));
    assert_eq!(clamp_region(0, 0, 10, 10, 0, 0), (0, 0, 0, 0));
    assert_eq!(clamp_region(2, 3, 4, 5, 100, 100), (2, 3, 4, 5));
}

#[test]
fn small_crops_scale_to_working_height() {
    assert_eq!(scaled_dimensions(500, 500), (1000, 1000));
    assert_eq!(scaled_dimensions(640, 480), (1333, 1000));
    assert_eq!(scaled_dimensions(800, 2000), (800, 2000));
    assert_eq!(scaled_dimensions(123, 0), (123, 0));
}

#[test]
fn thumbnails_encode_as_data_urls() {
    assert_eq!(png_data_url(&b"Man".to_vec()), "data:image/png;base64,TWFu".to_string());
    assert_eq!(png_data_url(&Vec::new()), "data:image/png;base64,".to_string());
}
