use vstd::prelude::*;
use vstd::string::StringSliceAdditionalSpecFns;

verus! {

/// The sixteen colours of the text mode.
#[derive(Debug, Clone, Copy, PartialEq, Eq)]
pub enum Color {
    Black,
    Blue,
    Green,
    Cyan,
    Red,
    Magenta,
    Brown,
    LightGray,
    DarkGray,
    LightBlue,
    LightGreen,
    LightCyan,
    LightRed,
    Pink,
    Yellow,
    White,
}

/// The four-bit number of a colour.
pub open spec fn color_value(c: Color) -> u8 {
    match c {
        Color::Black => 0,
        Color::Blue => 1,
        Color::Green => 2,
        Color::Cyan => 3,
        Color::Red => 4,
        Color::Magenta => 5,
        Color::Brown => 6,
        Color::LightGray => 7,
        Color::DarkGray => 8,
        Color::LightBlue => 9,
        Color::LightGreen => 10,
        Color::LightCyan => 11,
        Color::LightRed => 12,
        Color::Pink => 13,
        Color::Yellow => 14,
        Color::White => 15,
    }
}

impl Color {
    /// The four-bit number of the colour.
    pub fn as_u8(self) -> (r: u8)
        ensures
            r == color_value(self),
    {
        match self {
            Color::Black => 0,
            Color::Blue => 1,
            Color::Green => 2,
            Color::Cyan => 3,
            Color::Red => 4,
            Color::Magenta => 5,
            Color::Brown => 6,
            Color::LightGray => 7,
            Color::DarkGray => 8,
            Color::LightBlue => 9,
            Color::LightGreen => 10,
            Color::LightCyan => 11,
            Color::LightRed => 12,
            Color::Pink => 13,
            Color::Yellow => 14,
            Color::White => 15,
        }
    }
}

/// A foreground and a background colour in one attribute byte: the
/// background in the high four bits, the foreground in the low four.
#[derive(Debug, Clone, Copy, PartialEq, Eq)]
pub struct ColorCode(pub u8);

impl ColorCode {
    pub fn new(foreground: Color, background: Color) -> (r: ColorCode)
        ensures
            r.0 == color_value(background) * 16 + color_value(foreground),
    {
        let fg = foreground.as_u8();
        let bg = background.as_u8();
        assert((bg << 4u8) | fg == bg * 16 + fg) by (bit_vector)
            requires
                bg < 16,
                fg < 16,
        ;
        ColorCode((bg << 4u8) | fg)
    }
}

/// One cell of the screen: a code page 437 byte and its colours.
#[derive(Debug, Clone, Copy, PartialEq, Eq)]
pub struct ScreenChar {
    pub ascii_character: u8,
    pub color_code: ColorCode,
}

/// Rows on the screen.
pub const BUFFER_HEIGHT: usize = 25;

/// Cells in a row.
pub const BUFFER_WIDTH: usize = 80;

/// Cells on the screen.
pub const BUFFER_CELLS: usize = 2000;

/// First cell of the last row, the one that is written to.
pub const LAST_ROW_START: usize = 1920;

/// A blank cell in the given colours.
pub open spec fn blank(color: ColorCode) -> ScreenChar {
    ScreenChar { ascii_character: 0x20, color_code: color }
}

/// The screen moved up one row, with a blank last row.
pub open spec fn scrolled(chars: Seq<ScreenChar>, color: ColorCode) -> Seq<ScreenChar> {
    Seq::new(
        BUFFER_CELLS as nat,
        |i: int|
            if i < LAST_ROW_START {
                chars[i + BUFFER_WIDTH]
            } else {
                blank(color)
            },
    )
}

/// The screen and column after one byte is written: a newline scrolls; any
/// other byte goes to the next cell of the last row, after a scroll when the
/// row is full.
pub open spec fn after_byte(chars: Seq<ScreenChar>, col: nat, color: ColorCode, byte: u8) -> (Seq<
    ScreenChar,
>, nat) {
    if byte == 10 {
        (scrolled(chars, color), 0)
    } else {
        let c = if col >= BUFFER_WIDTH {
            scrolled(chars, color)
        } else {
            chars
        };
        let k: nat = if col >= BUFFER_WIDTH {
            0
        } else {
            col
        };
        (c.update(LAST_ROW_START + k, ScreenChar { ascii_character: byte, color_code: color }), k + 1)
    }
}

/// The byte shown for `b`: printable ASCII and newline as they are, any
/// other byte as a filled square.
pub open spec fn shown(b: u8) -> u8 {
    if (0x20 <= b <= 0x7e) || b == 10 {
        b
    } else {
        0xfe
    }
}

/// The screen and column after the bytes are written in order, each as it is shown.
pub open spec fn after_bytes(chars: Seq<ScreenChar>, col: nat, color: ColorCode, bytes: Seq<u8>) -> (Seq<
    ScreenChar,
>, nat)
    decreases bytes.len(),
{
    if bytes.len() == 0 {
        (chars, col)
    } else {
        let (c, k) = after_bytes(chars, col, color, bytes.drop_last());
        after_byte(c, k, color, shown(bytes.last()))
    }
}

/// Writes text to the bottom row of a 25 by 80 text screen, scrolling up
/// when a line ends.
pub struct Writer {
    column_position: usize,
    color_code: ColorCode,
    chars: Vec<ScreenChar>,
}

impl Writer {
    /// The cells, row by row.
    pub closed spec fn screen(&self) -> Seq<ScreenChar> {
        self.chars@
    }

    pub closed spec fn column(&self) -> nat {
        self.column_position as nat
    }

    pub closed spec fn color(&self) -> ColorCode {
        self.color_code
    }

    pub open spec fn wf(&self) -> bool {
        &&& self.screen().len() == BUFFER_CELLS
        &&& self.column() <= BUFFER_WIDTH
    }

    /// A writer at the start of the last row of a blank screen.
    pub fn new(color_code: ColorCode) -> (r: Writer)
        ensures
            r.wf(),
            r.column() == 0,
            r.color() == color_code,
            r.screen() == Seq::new(BUFFER_CELLS as nat, |i: int| blank(color_code)),
    {
        let mut chars: Vec<ScreenChar> = Vec::new();
        let mut i: usize = 0;
        while i < BUFFER_CELLS
            invariant
                i <= BUFFER_CELLS,
                chars@ == Seq::new(i as nat, |j: int| blank(color_code)),
            decreases BUFFER_CELLS - i,
        {
            chars.push(ScreenChar { ascii_character: 0x20, color_code });
            i = i + 1;
            assert(chars@ =~= Seq::new(i as nat, |j: int| blank(color_code)));
        }
        Writer { column_position: 0, color_code, chars }
    }

    /// The cell at `row`, `col`.
    pub fn read_char(&self, row: usize, col: usize) -> (r: ScreenChar)
        requires
            self.wf(),
            row < BUFFER_HEIGHT,
            col < BUFFER_WIDTH,
        ensures
            r == self.screen()[row * BUFFER_WIDTH + col],
    {
        assert(row * 80 + col < 2000) by (nonlinear_arith)
            requires
                row < 25,
                col < 80,
        ;
        self.chars[row * BUFFER_WIDTH + col]
    }

    pub fn column_position(&self) -> (r: usize)
        ensures
            r == self.column(),
    {
        self.column_position
    }

    pub fn color_code(&self) -> (r: ColorCode)
        ensures
            r == self.color(),
    {
        self.color_code
    }

    pub fn set_color_code(&mut self, color_code: ColorCode)
        ensures
            final(self).color() == color_code,
            final(self).screen() == old(self).screen(),
            final(self).column() == old(self).column(),
            old(self).wf() ==> final(self).wf(),
    {
        self.color_code = color_code;
    }

    /// Write one byte at the cursor; a newline starts a new line.
    pub fn write_byte(&mut self, byte: u8)
        requires
            old(self).wf(),
        ensures
            final(self).wf(),
            final(self).color() == old(self).color(),
            (final(self).screen(), final(self).column()) == after_byte(
                old(self).screen(),
                old(self).column(),
                old(self).color(),
                byte,
            ),
    {
        if byte == 10u8 {
            self.new_line();
        } else {
            if self.column_position >= BUFFER_WIDTH {
                self.new_line();
            }
            let col = self.column_position;
            let color_code = self.color_code;
            self.chars.set(LAST_ROW_START + col, ScreenChar { ascii_character: byte, color_code });
            self.column_position = self.column_position + 1;
        }
    }

    /// Move every row up by one and start a blank last row.
    fn new_line(&mut self)
        requires
            old(self).wf(),
        ensures
            final(self).wf(),
            final(self).color() == old(self).color(),
            final(self).column() == 0,
            final(self).screen() == scrolled(old(self).screen(), old(self).color()),
    {
        let ghost pre = self.chars@;
        let mut i: usize = BUFFER_WIDTH;
        while i < BUFFER_CELLS
            invariant
                BUFFER_WIDTH <= i <= BUFFER_CELLS,
                pre.len() == BUFFER_CELLS,
                self.color_code == old(self).color_code,
                self.chars@.len() == BUFFER_CELLS,
                self.column_position <= BUFFER_WIDTH,
                forall|j: int| 0 <= j < i - BUFFER_WIDTH ==> self.chars@[j] == pre[j + BUFFER_WIDTH],
                forall|j: int| i - BUFFER_WIDTH <= j < BUFFER_CELLS ==> self.chars@[j] == pre[j],
            decreases BUFFER_CELLS - i,
        {
            let character = self.chars[i];
            self.chars.set(i - BUFFER_WIDTH, character);
            i = i + 1;
        }
        self.clear_row(BUFFER_HEIGHT - 1);
        self.column_position = 0;
        assert(self.chars@ =~= scrolled(pre, self.color_code));
    }

    /// Fill a row with blanks in the current colours.
    fn clear_row(&mut self, row: usize)
        requires
            old(self).wf(),
            row < BUFFER_HEIGHT,
        ensures
            final(self).wf(),
            final(self).color() == old(self).color(),
            final(self).column() == old(self).column(),
            final(self).screen().len() == old(self).screen().len(),
            forall|i: int|
                0 <= i < BUFFER_CELLS ==> #[trigger] final(self).screen()[i] == if row
                    * BUFFER_WIDTH <= i < row * BUFFER_WIDTH + BUFFER_WIDTH {
                    blank(old(self).color())
                } else {
                    old(self).screen()[i]
                },
    {
        assert(row * 80 + 80 <= 2000) by (nonlinear_arith)
            requires
                row < 25,
        ;
        let base = row * BUFFER_WIDTH;
        let ghost pre = self.chars@;
        let mut col: usize = 0;
        while col < BUFFER_WIDTH
            invariant
                col <= BUFFER_WIDTH,
                base == row * BUFFER_WIDTH,
                base + BUFFER_WIDTH <= BUFFER_CELLS,
                self.color_code == old(self).color_code,
                self.column_position == old(self).column_position,
                pre.len() == BUFFER_CELLS,
                self.chars@.len() == BUFFER_CELLS,
                self.column_position <= BUFFER_WIDTH,
                forall|i: int|
                    0 <= i < BUFFER_CELLS ==> #[trigger] self.chars@[i] == if base <= i < base + col {
                        blank(self.color_code)
                    } else {
                        pre[i]
                    },
            decreases BUFFER_WIDTH - col,
        {
            let color_code = self.color_code;
            self.chars.set(base + col, ScreenChar { ascii_character: 0x20, color_code });
            col = col + 1;
        }
    }

    /// Write a string byte by byte; bytes outside printable ASCII and newline
    /// show as a filled square.
    pub fn write_string(&mut self, s: &str)
        requires
            old(self).wf(),
        ensures
            final(self).wf(),
            final(self).color() == old(self).color(),
            (final(self).screen(), final(self).column()) == after_bytes(
                old(self).screen(),
                old(self).column(),
                old(self).color(),
                s.spec_bytes(),
            ),
    {
        let bytes = s.as_bytes();
        let ghost pre = *self;
        let mut i: usize = 0;
        while i < bytes.len()
            invariant
                i <= bytes@.len(),
                bytes@ == s.spec_bytes(),
                self.wf(),
                self.color() == pre.color(),
                (self.screen(), self.column()) == after_bytes(
                    pre.screen(),
                    pre.column(),
                    pre.color(),
                    bytes@.take(i as int),
                ),
            decreases bytes@.len() - i,
        {
            let byte = bytes[i];
            proof {
                let t = bytes@.take(i + 1);
                assert(t.drop_last() =~= bytes@.take(i as int));
                assert(t.last() == byte);
            }
            if (0x20 <= byte && byte <= 0x7e) || byte == 10u8 {
                self.write_byte(byte);
            } else {
                self.write_byte(0xfe);
            }
            i = i + 1;
        }
        assert(bytes@.take(i as int) =~= bytes@);
    }

    /// Write the hollow smiling face (code page 437 byte 1).
    pub fn write_hollow_smiling(&mut self)
        requires
            old(self).wf(),
        ensures
            final(self).wf(),
            final(self).color() == old(self).color(),
            (final(self).screen(), final(self).column()) == after_byte(
                old(self).screen(),
                old(self).column(),
                old(self).color(),
                0x01,
            ),
    {
        self.write_byte(0x01);
    }

    /// Write the filled smiling face (code page 437 byte 2).
    pub fn write_opaque_smiling(&mut self)
        requires
            old(self).wf(),
        ensures
            final(self).wf(),
            final(self).color() == old(self).color(),
            (final(self).screen(), final(self).column()) == after_byte(
                old(self).screen(),
                old(self).column(),
                old(self).color(),
                0x02,
            ),
    {
        self.write_byte(0x02);
    }

    /// Write the heart (code page 437 byte 3).
    pub fn write_heart(&mut self)
        requires
            old(self).wf(),
        ensures
            final(self).wf(),
            final(self).color() == old(self).color(),
            (final(self).screen(), final(self).column()) == after_byte(
                old(self).screen(),
                old(self).column(),
                old(self).color(),
                0x03,
            ),
    {
        self.write_byte(0x03);
    }
}


/// The colours a writer starts with: light gray on black.
pub open spec fn default_color() -> ColorCode {
    ColorCode(0x07)
}

/// Write a heart through `writer`.
pub fn print_heart(writer: &mut Writer)
    requires
        old(writer).wf(),
    ensures
        final(writer).wf(),
        final(writer).color() == old(writer).color(),
        (final(writer).screen(), final(writer).column()) == after_byte(
            old(writer).screen(),
            old(writer).column(),
            old(writer).color(),
            0x03,
        ),
{
    writer.write_heart();
}

/// Write a hollow smiling face through `writer`.
pub fn print_hollow_smile(writer: &mut Writer)
    requires
        old(writer).wf(),
    ensures
        final(writer).wf(),
        final(writer).color() == old(writer).color(),
        (final(writer).screen(), final(writer).column()) == after_byte(
            old(writer).screen(),
            old(writer).column(),
            old(writer).color(),
            0x01,
        ),
{
    writer.write_hollow_smiling();
}

/// Write a filled smiling face through `writer`.
pub fn print_opaque_smile(writer: &mut Writer)
    requires
        old(writer).wf(),
    ensures
        final(writer).wf(),
        final(writer).color() == old(writer).color(),
        (final(writer).screen(), final(writer).column()) == after_byte(
            old(writer).screen(),
            old(writer).column(),
            old(writer).color(),
            0x02,
        ),
{
    writer.write_opaque_smiling();
}

/// Give `writer` back its first colours, light gray on black.
pub fn print_resotre_default_color(writer: &mut Writer)
    requires
        old(writer).wf(),
    ensures
        final(writer).wf(),
        final(writer).color() == default_color(),
        final(writer).screen() == old(writer).screen(),
        final(writer).column() == old(writer).column(),
{
    writer.set_color_code(ColorCode::new(Color::LightGray, Color::Black));
}

/// Make `writer` write in `fg` on `bg` from now on.
pub fn print_set_color(writer: &mut Writer, fg: Color, bg: Color)
    requires
        old(writer).wf(),
    ensures
        final(writer).wf(),
        final(writer).color().0 == color_value(bg) * 16 + color_value(fg),
        final(writer).screen() == old(writer).screen(),
        final(writer).column() == old(writer).column(),
{
    writer.set_color_code(ColorCode::new(fg, bg));
}

} // verus!
