//! Tests of the rendering geometry and the metadata record.

use sudoku_solver::geom::{cell_boxes, line_thickness, CellBox};
use sudoku_solver::record::{Highlight, JsonRecord};

#[test]
fn cell_box_new_sets_fields() {
    let b = CellBox::new(1, 2, 3, 4);
    assert_eq!(b.x, 1);
    assert_eq!(b.y, 2);
    assert_eq!(b.w, 3);
    assert_eq!(b.h, 4);
}

#[test]
fn cell_boxes_tile_the_board() {
    // The standard 512-pixel image: 16 px margin, 480 px board, 53 px cells.
    let boxes = cell_boxes(9, 16, 53, 480);
    assert_eq!(boxes.len(), 81);
    assert_eq!(boxes[0], CellBox::new(16, 16, 53, 53));
    assert_eq!(boxes[1], CellBox::new(16 + 53, 16, 53, 53));
    // The last row and column absorb the division slack: 480 - 8 * 53 = 56.
    assert_eq!(boxes[8], CellBox::new(16 + 8 * 53, 16, 56, 53));
    assert_eq!(boxes[80], CellBox::new(16 + 8 * 53, 16 + 8 * 53, 56, 56));
}

#[test]
fn line_thickness_marks_block_boundaries() {
    assert_eq!(line_thickness(0, 9, 3, 5, 2, true), 5);
    assert_eq!(line_thickness(9, 9, 3, 5, 2, true), 5);
    assert_eq!(line_thickness(3, 9, 3, 5, 2, true), 5);
    assert_eq!(line_thickness(4, 9, 3, 5, 2, true), 2);
    assert_eq!(line_thickness(4, 9, 3, 5, 2, false), 0);
}

#[test]
fn json_record_new_assembles_the_fields() {
    let boxes = vec![CellBox::new(0, 0, 8, 8)];
    let labels = vec![1u8, 2, 3];
    let hl = Highlight { row: 1, col: 2, sbox: (0, 1), cell: (3, 4) };
    let rec = JsonRecord::new(
        String::from("images/000007.png"),
        labels.clone(),
        boxes.clone(),
        9,
        42,
        Some(hl),
    );
    assert_eq!(rec.schema, "v1");
    assert_eq!(rec.image, "images/000007.png");
    assert_eq!(rec.labels, labels);
    assert_eq!(rec.boxes, boxes);
    assert_eq!(rec.dim, 9);
    assert_eq!(rec.seed, 42);
    assert_eq!(rec.highlight.unwrap().row, 1);
}
