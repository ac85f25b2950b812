use h_os::vga_buffer::{
    print_heart, print_hollow_smile, print_opaque_smile, print_resotre_default_color, print_set_color, Color,
    ColorCode, Writer, BUFFER_HEIGHT, BUFFER_WIDTH,
};

fn writer() -> Writer {
    Writer::new(ColorCode::new(Color::LightGray, Color::Black))
}

fn row_text(w: &Writer, row: usize, len: usize) -> Vec<u8> {
    (0..len).map(|c| w.read_char(row, c).ascii_character).collect()
}

#[test]
fn color_codes() {
    assert_eq!(ColorCode::new(Color::LightGray, Color::Black).0, 0x07);
    assert_eq!(ColorCode::new(Color::Yellow, Color::Blue).0, 0x1e);
    assert_eq!(ColorCode::new(Color::White, Color::White).0, 0xff);
    assert_eq!(Color::Pink.as_u8(), 13);
}

#[test]
fn test_println_simple() {
    let mut w = writer();
    w.write_string("test_println_simple output");
    assert_eq!(row_text(&w, BUFFER_HEIGHT - 1, 26), b"test_println_simple output".to_vec());
    assert_eq!(w.column_position(), 26);
}

#[test]
fn test_println_int() {
    let mut w = writer();
    for i in 0..=200 {
        w.write_string(&format!("test_println_int: {i}\n"));
    }
    assert_eq!(row_text(&w, BUFFER_HEIGHT - 2, 21), b"test_println_int: 200".to_vec());
    assert_eq!(row_text(&w, BUFFER_HEIGHT - 3, 21), b"test_println_int: 199".to_vec());
    assert_eq!(w.column_position(), 0);
}

#[test]
fn test_println_char_str() {
    let mut w = writer();
    let s = "Hello, RUST os World!";
    w.write_string(&format!("\n{s}\n"));
    for (i, c) in s.chars().enumerate() {
        let screen_char = w.read_char(BUFFER_HEIGHT - 2, i);
        assert_eq!(char::from(screen_char.ascii_character), c);
    }
}

#[test]
fn newline_scrolls_and_blanks_last_row() {
    let mut w = writer();
    w.write_string("ab\ncd");
    assert_eq!(row_text(&w, 23, 2), b"ab".to_vec());
    assert_eq!(row_text(&w, 24, 3), b"cd ".to_vec());
    assert_eq!(w.read_char(24, 2).color_code, ColorCode(0x07));
}

#[test]
fn full_row_wraps() {
    let mut w = writer();
    let line: String = std::iter::repeat('x').take(BUFFER_WIDTH).collect();
    w.write_string(&line);
    assert_eq!(w.column_position(), BUFFER_WIDTH);
    w.write_byte(b'y');
    assert_eq!(row_text(&w, 23, BUFFER_WIDTH), line.into_bytes());
    assert_eq!(w.read_char(24, 0).ascii_character, b'y');
    assert_eq!(w.column_position(), 1);
}

#[test]
fn unprintable_bytes_show_as_square() {
    let mut w = writer();
    w.write_string("a\u{e9}\tb");
    assert_eq!(row_text(&w, 24, 5), vec![b'a', 0xfe, 0xfe, 0xfe, b'b']);
}

#[test]
fn symbols_and_colors() {
    let mut w = writer();
    print_heart(&mut w);
    print_hollow_smile(&mut w);
    print_opaque_smile(&mut w);
    assert_eq!(row_text(&w, 24, 3), vec![3, 1, 2]);
    print_set_color(&mut w, Color::Red, Color::Green);
    assert_eq!(w.color_code(), ColorCode(0x24));
    w.write_byte(b'r');
    assert_eq!(w.read_char(24, 3).color_code, ColorCode(0x24));
    assert_eq!(w.read_char(24, 0).color_code, ColorCode(0x07));
    print_resotre_default_color(&mut w);
    assert_eq!(w.color_code(), ColorCode(0x07));
}
