use file_transfer::acknowledgement_board_view::{
    AcknowledgementBoard, AcknowledgementBoardView, Cell, DrawnCell, Options, Rgb,
};
use file_transfer::board_view;
use file_transfer::vec2::Vec2;
use file_transfer::view::BasicColumn;

#[test]
fn vec2_inside_needs_both_axes_smaller() {
    let size = Vec2::new(4, 3);
    assert!(Vec2::new(3, 2).is_inside(&size));
    assert!(!Vec2::new(4, 2).is_inside(&size));
    assert!(!Vec2::new(3, 3).is_inside(&size));
    assert!(!size.is_inside(&size));
}

#[test]
fn column_headings() {
    assert_eq!(BasicColumn::Address.as_str(), "Address");
    assert_eq!(BasicColumn::Uploaded.as_str(), "Uploaded");
}

#[test]
fn board_marks_padding_after_the_chunks() {
    let board = AcknowledgementBoard::new(Options { size: Vec2::new(3, 2), acknowledged_fields: 4 });
    assert_eq!(board.size, Vec2::new(3, 2));
    assert_eq!(
        board.cells,
        vec![Cell::NotSent, Cell::NotSent, Cell::NotSent, Cell::NotSent, Cell::Empty, Cell::Empty]
    );
}

#[test]
fn board_without_padding_and_empty_board() {
    let full = AcknowledgementBoard::new(Options { size: Vec2::new(2, 2), acknowledged_fields: 4 });
    assert_eq!(full.cells, vec![Cell::NotSent; 4]);
    let none = AcknowledgementBoard::new(Options { size: Vec2::new(2, 2), acknowledged_fields: 0 });
    assert_eq!(none.cells, vec![Cell::Empty; 4]);
    let empty = AcknowledgementBoard::new(Options { size: Vec2::new(0, 5), acknowledged_fields: 0 });
    assert!(empty.cells.is_empty());
}

#[test]
fn cell_colors() {
    assert_eq!(Cell::Acknowledged.color(), Rgb { r: 0, g: 255, b: 0 });
    assert_eq!(Cell::NotSent.color(), Rgb { r: 255, g: 0, b: 0 });
    assert_eq!(Cell::Pending.color(), Rgb { r: 255, g: 255, b: 0 });
    assert_eq!(Cell::Empty.color(), Rgb { r: 0, g: 0, b: 255 });
}

#[test]
fn view_marks_single_cells() {
    let mut view = AcknowledgementBoardView::new(Options { size: Vec2::new(3, 2), acknowledged_fields: 5 });
    assert_eq!(view.len(), 6);
    view.mark_sent(1);
    view.mark_sent(2);
    view.acknowledge(1);
    let drawn = view.cells_to_draw();
    let colors: Vec<Rgb> = drawn.iter().map(|d| d.color).collect();
    assert_eq!(
        colors,
        vec![
            Cell::NotSent.color(),
            Cell::Acknowledged.color(),
            Cell::Pending.color(),
            Cell::NotSent.color(),
            Cell::NotSent.color(),
            Cell::Empty.color(),
        ]
    );
}

#[test]
fn view_draws_row_after_row() {
    let view = AcknowledgementBoardView::new(Options { size: Vec2::new(3, 2), acknowledged_fields: 6 });
    let drawn = view.cells_to_draw();
    assert_eq!(drawn.len(), 6);
    assert_eq!(drawn[0], DrawnCell { position: Vec2::new(0, 0), color: Cell::NotSent.color() });
    assert_eq!(drawn[2].position, Vec2::new(2, 0));
    assert_eq!(drawn[3].position, Vec2::new(0, 1));
    assert_eq!(drawn[5].position, Vec2::new(2, 1));
}

#[test]
fn view_takes_two_columns_per_cell() {
    let view = AcknowledgementBoardView::new(Options { size: Vec2::new(20, 3), acknowledged_fields: 41 });
    assert_eq!(view.required_size(), Vec2::new(40, 3));
}

#[test]
fn client_board_starts_pending() {
    let board = board_view::AcknowledgementBoard::new(board_view::Options {
        size: Vec2::new(2, 3),
        acknowledge_cells: 5,
    });
    assert_eq!(board.cells, vec![board_view::Cell::Pending; 6]);
    let view = board_view::AcknowledgementBoardView::new(board_view::Options {
        size: Vec2::new(2, 3),
        acknowledge_cells: 5,
    });
    assert_eq!(view.len(), 6);
    assert_eq!(view.required_size(), Vec2::new(4, 3));
}

#[test]
fn client_board_cell_ids() {
    let board = board_view::AcknowledgementBoard::new(board_view::Options {
        size: Vec2::new(4, 3),
        acknowledge_cells: 12,
    });
    assert_eq!(board.cell_id(Vec2::new(0, 0)), Some(0));
    assert_eq!(board.cell_id(Vec2::new(3, 0)), Some(3));
    assert_eq!(board.cell_id(Vec2::new(1, 2)), Some(9));
    assert_eq!(board.cell_id(Vec2::new(4, 0)), None);
    assert_eq!(board.cell_id(Vec2::new(0, 3)), None);
}

#[test]
fn client_board_draws_each_cell_at_its_id() {
    let size = Vec2::new(4, 3);
    let mut view = board_view::AcknowledgementBoardView::new(board_view::Options { size, acknowledge_cells: 10 });
    view.acknowledge(6);
    let board = board_view::AcknowledgementBoard::new(board_view::Options { size, acknowledge_cells: 10 });
    let drawn = view.cells_to_draw();
    for (i, cell) in drawn.iter().enumerate() {
        assert_eq!(board.cell_id(cell.position), Some(i));
    }
    assert_eq!(drawn[6].color, board_view::Cell::Acknowledged.color());
    assert_eq!(drawn[6].position, Vec2::new(2, 1));
    assert_eq!(drawn[7].color, board_view::Rgb { r: 255, g: 0, b: 0 });
}

#[test]
fn client_board_colors_and_glyph() {
    assert_eq!(board_view::Cell::Acknowledged.color(), board_view::Rgb { r: 0, g: 255, b: 0 });
    assert_eq!(board_view::Cell::Pending.color(), board_view::Rgb { r: 255, g: 0, b: 0 });
    assert_eq!(board_view::Cell::Empty.color(), board_view::Rgb { r: 0, g: 0, b: 255 });
    assert_eq!(board_view::Cell::Empty.glyph(), "■");
}

#[test]
fn view_reports_its_extent() {
    let view = AcknowledgementBoardView::new(Options { size: Vec2::new(5, 4), acknowledged_fields: 7 });
    assert_eq!(view.board_size(), Vec2::new(5, 4));
}
