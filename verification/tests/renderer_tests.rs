use termchat::renderer::{render_diff, Buffer, Cell, Color, Op, Position, Region};

fn buffer_row_text(buffer: &Buffer, row: usize) -> String {
    let mut out = String::new();
    for c in 0..buffer.width {
        out.push(buffer.get(row, c).c);
    }
    out
}

#[test]
fn region_new_is_order_independent() {
    let pairs = [
        (Position::new(2, 5), Position::new(4, 3)),
        (Position::new(4, 3), Position::new(2, 5)),
        (Position::new(1, 1), Position::new(1, 7)),
        (Position::new(1, 7), Position::new(1, 1)),
        (Position::new(3, 3), Position::new(3, 3)),
    ];
    for (a, b) in pairs {
        assert_eq!(Region::new(a, b), Region::new(b, a));
    }
    let normalized = Region::new(Position::new(4, 3), Position::new(2, 5));
    assert_eq!(normalized.0, Position::new(2, 5));
    assert_eq!(normalized.1, Position::new(4, 3));
}

#[test]
fn region_contains_wraps_across_rows() {
    // A region from (2, 5) to (4, 3) covers columns 5.. of row 2, all of
    // row 3, and columns 0..=3 of row 4 - not a rectangular box.
    let region = Region::new(Position::new(2, 5), Position::new(4, 3));
    assert!(region.contains(Position::new(2, 5)));
    assert!(region.contains(Position::new(2, 79)));
    assert!(!region.contains(Position::new(2, 4)));
    assert!(region.contains(Position::new(3, 0)));
    assert!(region.contains(Position::new(3, 79)));
    assert!(region.contains(Position::new(4, 0)));
    assert!(region.contains(Position::new(4, 3)));
    assert!(!region.contains(Position::new(4, 4)));
    assert!(!region.contains(Position::new(1, 6)));
    assert!(!region.contains(Position::new(5, 0)));
}

#[test]
fn new_buffer_holds_default_cells() {
    let buffer = Buffer::new(4, 3);
    assert_eq!(buffer.width, 4);
    assert_eq!(buffer.height, 3);
    for r in 0..3 {
        for c in 0..4 {
            let cell = buffer.get(r, c);
            assert_eq!(cell.c, ' ');
            assert_eq!(cell.fg, Color::White);
            assert_eq!(cell.bg, Color::Reset);
        }
    }
}

#[test]
fn put_line_writes_and_preserves() {
    let mut buffer = Buffer::new(6, 2);
    buffer.put_line(0, Some(Color::Green), Some(Color::Blue), "hi");
    assert_eq!(buffer.get(0, 0), Cell::new(Color::Green, Color::Blue, 'h'));
    assert_eq!(buffer.get(0, 1), Cell::new(Color::Green, Color::Blue, 'i'));
    // Columns beyond the text are left untouched.
    assert_eq!(buffer.get(0, 2), Cell::new(Color::White, Color::Reset, ' '));
    // A missing override preserves the existing colors at touched columns.
    buffer.put_line(0, None, None, "ab");
    assert_eq!(buffer.get(0, 0), Cell::new(Color::Green, Color::Blue, 'a'));
    // Text longer than the pane is cut at the width.
    buffer.put_line(1, Some(Color::Red), None, "abcdefgh");
    assert_eq!(buffer_row_text(&buffer, 1), "abcdef");
}

#[test]
fn clear_resets_every_cell() {
    let mut buffer = Buffer::new(3, 2);
    buffer.put_line(1, Some(Color::Red), Some(Color::Blue), "xyz");
    buffer.clear();
    for r in 0..2 {
        for c in 0..3 {
            assert_eq!(buffer.get(r, c), Cell::new(Color::White, Color::Reset, ' '));
        }
    }
}

#[test]
fn resize_preserves_surviving_cells() {
    let mut buffer = Buffer::new(3, 2);
    buffer.put_line(0, Some(Color::Red), None, "abc");
    buffer.put_line(1, Some(Color::Blue), None, "def");
    buffer.resize(5, 3);
    assert_eq!(buffer.width, 5);
    assert_eq!(buffer.height, 3);
    // Previously set cells survive at unchanged coordinates.
    assert_eq!(buffer.get(0, 0), Cell::new(Color::Red, Color::Reset, 'a'));
    assert_eq!(buffer.get(1, 2), Cell::new(Color::Blue, Color::Reset, 'f'));
    // Newly exposed cells are default.
    assert_eq!(buffer.get(0, 4), Cell::new(Color::White, Color::Reset, ' '));
    assert_eq!(buffer.get(2, 0), Cell::new(Color::White, Color::Reset, ' '));
}

#[test]
fn resize_smaller_then_larger_resets_reexposed_cells() {
    let mut buffer = Buffer::new(4, 2);
    buffer.put_line(0, Some(Color::Red), None, "abcd");
    buffer.resize(2, 1);
    assert_eq!(buffer.get(0, 1), Cell::new(Color::Red, Color::Reset, 'b'));
    buffer.resize(4, 2);
    // The cells cut by the shrink come back as defaults.
    assert_eq!(buffer.get(0, 0), Cell::new(Color::Red, Color::Reset, 'a'));
    assert_eq!(buffer.get(0, 2), Cell::new(Color::White, Color::Reset, ' '));
    assert_eq!(buffer.get(0, 3), Cell::new(Color::White, Color::Reset, ' '));
    assert_eq!(buffer.get(1, 0), Cell::new(Color::White, Color::Reset, ' '));
}

#[test]
fn region_text_spans_rows() {
    // Rows strictly between the ends come out whole; the first row from the
    // start column on, the last row up to the end column.
    let mut buffer = Buffer::new(8, 4);
    buffer.put_line(0, None, None, "00000000");
    buffer.put_line(1, None, None, "abcdefgh");
    buffer.put_line(2, None, None, "ijklmnop");
    buffer.put_line(3, None, None, "qrstuvwx");
    let region = Region::new(Position::new(1, 5), Position::new(3, 2));
    let text = buffer.get_region_text(&region);
    assert_eq!(text, "fgh\nijklmnop\nqrs\n");
}

#[test]
fn region_text_trims_trailing_spaces() {
    let mut buffer = Buffer::new(8, 2);
    buffer.put_line(0, None, None, "ab");
    buffer.put_line(1, None, None, "  cd");
    let region = Region::new(Position::new(0, 0), Position::new(1, 7));
    let text = buffer.get_region_text(&region);
    assert_eq!(text, "ab\n  cd\n");
}

#[test]
fn mark_overwrites_background_only() {
    let mut buffer = Buffer::new(4, 3);
    buffer.put_line(1, Some(Color::Green), None, "abcd");
    let region = Region::new(Position::new(1, 1), Position::new(1, 2));
    buffer.mark(&region, Color::Blue);
    assert_eq!(buffer.get(1, 1), Cell::new(Color::Green, Color::Blue, 'b'));
    assert_eq!(buffer.get(1, 2), Cell::new(Color::Green, Color::Blue, 'c'));
    assert_eq!(buffer.get(1, 0), Cell::new(Color::Green, Color::Reset, 'a'));
    assert_eq!(buffer.get(1, 3), Cell::new(Color::Green, Color::Reset, 'd'));
    assert_eq!(buffer.get(0, 1), Cell::new(Color::White, Color::Reset, ' '));
}

#[test]
fn mark_clips_rows_past_the_bottom() {
    let mut buffer = Buffer::new(2, 2);
    let region = Region::new(Position::new(1, 0), Position::new(9, 1));
    buffer.mark(&region, Color::Blue);
    assert_eq!(buffer.get(1, 0).bg, Color::Blue);
    assert_eq!(buffer.get(1, 1).bg, Color::Blue);
    assert_eq!(buffer.get(0, 0).bg, Color::Reset);
}

#[test]
fn diff_of_identical_frames_emits_nothing() {
    let mut front = Buffer::new(5, 3);
    let mut back = Buffer::new(5, 3);
    front.put_line(1, Some(Color::Blue), None, "same");
    back.put_line(1, Some(Color::Blue), None, "same");
    let (ops, fg, bg) = render_diff(&front, &back, Color::White, Color::Black);
    assert_eq!(ops.len(), 0);
    assert_eq!(fg, Color::White);
    assert_eq!(bg, Color::Black);
}

#[test]
fn second_pass_after_swap_emits_nothing() {
    // Draw a frame against an empty front, then diff the drawn frame
    // against itself, as the swap leaves things: zero operations.
    let front = Buffer::new(5, 2);
    let mut back = Buffer::new(5, 2);
    back.put_line(0, Some(Color::Green), None, "hello");
    let (first_pass, fg, bg) = render_diff(&front, &back, Color::White, Color::Black);
    assert!(first_pass.len() > 0);
    let (second_pass, _, _) = render_diff(&back, &back, fg, bg);
    assert_eq!(second_pass.len(), 0);
}

#[test]
fn diff_emits_only_changed_cells_with_deduplicated_colors() {
    let front = Buffer::new(4, 2);
    let mut back = Buffer::new(4, 2);
    // Two adjacent cells in one color: the color is set once.
    back.put_line(0, Some(Color::Green), None, "ab");
    let (ops, fg, bg) = render_diff(&front, &back, Color::White, Color::Reset);
    assert_eq!(
        ops,
        vec![
            Op::SetFg(Color::Green),
            Op::MoveTo(0, 0),
            Op::Print('a'),
            Op::MoveTo(1, 0),
            Op::Print('b'),
        ]
    );
    assert_eq!(fg, Color::Green);
    assert_eq!(bg, Color::Reset);
}
