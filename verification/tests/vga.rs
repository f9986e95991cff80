//! Behavioral tests of the console writer model.

use boot_frame_alloc::vga_buffer::{
    clear_screen, print, ColorCode, VgaColor, VgaWriter, BUFFER_HEIGHT, BUFFER_WIDTH,
};

fn writer() -> VgaWriter {
    VgaWriter::new(ColorCode::new(VgaColor::LightGreen, VgaColor::Black))
}

#[test]
fn color_code_packs_nibbles() {
    assert_eq!(ColorCode::new(VgaColor::LightGreen, VgaColor::Black).value(), 10);
    assert_eq!(ColorCode::new(VgaColor::White, VgaColor::Blue).value(), 0x1F);
    assert_eq!(ColorCode::new(VgaColor::Black, VgaColor::White).value(), 0xF0);
    assert_eq!(ColorCode::new(VgaColor::Yellow, VgaColor::Red).value(), 0x4E);
}

#[test]
fn new_writer_is_blank() {
    let w = writer();
    assert_eq!(w.column(), 0);
    for row in 0..BUFFER_HEIGHT {
        for col in 0..BUFFER_WIDTH {
            assert_eq!(w.char_at(row, col).ascii_char, b' ');
        }
    }
}

#[test]
fn bytes_land_on_the_bottom_row() {
    let mut w = writer();
    w.write_byte(b'H');
    w.write_byte(b'i');
    assert_eq!(w.char_at(BUFFER_HEIGHT - 1, 0).ascii_char, b'H');
    assert_eq!(w.char_at(BUFFER_HEIGHT - 1, 1).ascii_char, b'i');
    assert_eq!(
        w.char_at(BUFFER_HEIGHT - 1, 0).color_code,
        ColorCode::new(VgaColor::LightGreen, VgaColor::Black)
    );
    assert_eq!(w.column(), 2);
}

#[test]
fn newline_scrolls_up_and_resets_column() {
    let mut w = writer();
    w.write_byte(b'A');
    w.write_byte(b'B');
    w.write_byte(b'\n');
    assert_eq!(w.column(), 0);
    assert_eq!(w.char_at(BUFFER_HEIGHT - 2, 0).ascii_char, b'A');
    assert_eq!(w.char_at(BUFFER_HEIGHT - 2, 1).ascii_char, b'B');
    for col in 0..BUFFER_WIDTH {
        assert_eq!(w.char_at(BUFFER_HEIGHT - 1, col).ascii_char, b' ');
    }
}

#[test]
fn full_row_wraps_before_writing() {
    let mut w = writer();
    for _ in 0..BUFFER_WIDTH {
        w.write_byte(b'x');
    }
    assert_eq!(w.column(), BUFFER_WIDTH);
    w.write_byte(b'y');
    // the row of x's scrolled up; y starts the fresh bottom row
    assert_eq!(w.column(), 1);
    assert_eq!(w.char_at(BUFFER_HEIGHT - 2, 0).ascii_char, b'x');
    assert_eq!(w.char_at(BUFFER_HEIGHT - 2, BUFFER_WIDTH - 1).ascii_char, b'x');
    assert_eq!(w.char_at(BUFFER_HEIGHT - 1, 0).ascii_char, b'y');
}

#[test]
fn write_str_matches_byte_by_byte_writes() {
    let mut a = writer();
    let mut b = writer();
    a.write_str("frame 0x10\nnext");
    for byte in "frame 0x10\nnext".bytes() {
        b.write_byte(byte);
    }
    assert_eq!(a.column(), b.column());
    for row in 0..BUFFER_HEIGHT {
        for col in 0..BUFFER_WIDTH {
            assert_eq!(a.char_at(row, col), b.char_at(row, col));
        }
    }
}

#[test]
fn print_writes_through_the_writer() {
    let mut w = writer();
    print(&mut w, "memory areas:");
    assert_eq!(w.char_at(BUFFER_HEIGHT - 1, 0).ascii_char, b'm');
    assert_eq!(w.char_at(BUFFER_HEIGHT - 1, 12).ascii_char, b':');
    assert_eq!(w.column(), 13);
}

#[test]
fn clear_screen_blanks_everything() {
    let mut w = writer();
    w.write_str("some trace output\nmore\n");
    clear_screen(&mut w);
    assert_eq!(w.column(), 0);
    for row in 0..BUFFER_HEIGHT {
        for col in 0..BUFFER_WIDTH {
            assert_eq!(w.char_at(row, col).ascii_char, b' ');
        }
    }
}
