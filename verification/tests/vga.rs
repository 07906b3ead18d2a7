use ment_os::vga::{ScreenCell, Writer, SCREEN_HEIGHT, SCREEN_WIDTH, TEXT_COLOR};

#[test]
fn new_writer_is_blank_at_origin() {
    let w = Writer::new();
    assert_eq!(w.row, 0);
    assert_eq!(w.col, 0);
    assert_eq!(w.cells.len(), SCREEN_WIDTH * SCREEN_HEIGHT);
    for cell in &w.cells {
        assert_eq!(*cell, ScreenCell { ch: b' ', color: TEXT_COLOR });
    }
}

#[test]
fn print_draws_cells_and_advances() {
    let mut w = Writer::new();
    w.print("Hi");
    assert_eq!(w.cells[0], ScreenCell { ch: b'H', color: TEXT_COLOR });
    assert_eq!(w.cells[1], ScreenCell { ch: b'i', color: TEXT_COLOR });
    assert_eq!(w.row, 0);
    assert_eq!(w.col, 2);
}

#[test]
fn println_moves_to_next_row() {
    let mut w = Writer::new();
    w.println("Hello World!");
    assert_eq!(w.row, 1);
    assert_eq!(w.col, 0);
    assert_eq!(w.cells[0].ch, b'H');
    assert_eq!(w.cells[11].ch, b'!');
}

#[test]
fn second_line_lands_on_second_row() {
    let mut w = Writer::new();
    w.println("ab");
    w.print("c");
    assert_eq!(w.cells[SCREEN_WIDTH].ch, b'c');
    assert_eq!(w.row, 1);
    assert_eq!(w.col, 1);
}

#[test]
fn column_wraps_at_right_edge() {
    let mut w = Writer::new();
    for _ in 0..SCREEN_WIDTH {
        w.print_byte(b'x');
    }
    assert_eq!(w.row, 1);
    assert_eq!(w.col, 0);
    assert_eq!(w.cells[SCREEN_WIDTH - 1].ch, b'x');
}

#[test]
fn write_cell_lands_at_row_and_column() {
    let mut w = Writer::new();
    w.write_cell(3, 7, b'Q');
    assert_eq!(w.cells[3 * SCREEN_WIDTH + 7], ScreenCell { ch: b'Q', color: TEXT_COLOR });
    // the cursor does not move
    assert_eq!(w.row, 0);
    assert_eq!(w.col, 0);
}

#[test]
fn row_wraps_at_bottom() {
    let mut w = Writer::new();
    for _ in 0..SCREEN_HEIGHT {
        w.print_byte(b'\n');
    }
    assert_eq!(w.row, 0);
    assert_eq!(w.col, 0);
}
