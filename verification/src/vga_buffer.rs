//! In-memory model of the text-mode console: a fixed 25x80 character grid
//! with sequential writes, newline handling and scrolling. The memory-mapped
//! device itself lives outside the library; this writer is the byte sink the
//! allocator's trace output goes through.

use vstd::prelude::*;
use vstd::string::StringSliceAdditionalSpecFns;

verus! {

/// Rows of the character grid.
pub const BUFFER_HEIGHT: usize = 25;

/// Columns of the character grid.
pub const BUFFER_WIDTH: usize = 80;

/// The sixteen colors of the text-mode palette.
#[derive(Debug, Clone, Copy, PartialEq, Eq, Structural)]
pub enum VgaColor {
    Black,
    Blue,
    Green,
    Cyan,
    Red,
    Magenta,
    Brown,
    LightGray,
    DarkGray,
    LightBlue,
    LightGreen,
    LightCyan,
    LightRed,
    Pink,
    Yellow,
    White,
}

impl VgaColor {
    /// The palette index of this color.
    pub open spec fn spec_code(self) -> u8 {
        match self {
            VgaColor::Black => 0,
            VgaColor::Blue => 1,
            VgaColor::Green => 2,
            VgaColor::Cyan => 3,
            VgaColor::Red => 4,
            VgaColor::Magenta => 5,
            VgaColor::Brown => 6,
            VgaColor::LightGray => 7,
            VgaColor::DarkGray => 8,
            VgaColor::LightBlue => 9,
            VgaColor::LightGreen => 10,
            VgaColor::LightCyan => 11,
            VgaColor::LightRed => 12,
            VgaColor::Pink => 13,
            VgaColor::Yellow => 14,
            VgaColor::White => 15,
        }
    }

    /// The palette index of this color.
    pub fn code(self) -> (r: u8)
        ensures
            r == self.spec_code(),
    {
        match self {
            VgaColor::Black => 0,
            VgaColor::Blue => 1,
            VgaColor::Green => 2,
            VgaColor::Cyan => 3,
            VgaColor::Red => 4,
            VgaColor::Magenta => 5,
            VgaColor::Brown => 6,
            VgaColor::LightGray => 7,
            VgaColor::DarkGray => 8,
            VgaColor::LightBlue => 9,
            VgaColor::LightGreen => 10,
            VgaColor::LightCyan => 11,
            VgaColor::LightRed => 12,
            VgaColor::Pink => 13,
            VgaColor::Yellow => 14,
            VgaColor::White => 15,
        }
    }
}

/// A packed foreground/background color pair: background in the high
/// nibble, foreground in the low nibble.
#[derive(Debug, Clone, Copy, PartialEq, Eq, Structural)]
pub struct ColorCode(u8);

impl ColorCode {
    /// The packed byte value.
    pub closed spec fn spec_value(self) -> u8 {
        self.0
    }

    /// Packs a foreground and a background color into one byte.
    pub fn new(foreground: VgaColor, background: VgaColor) -> (r: ColorCode)
        ensures
            r.spec_value() == background.spec_code() * 16 + foreground.spec_code(),
    {
        let f = foreground.code();
        let b = background.code();
        assert((b << 4u8) | f == b * 16 + f) by (bit_vector)
            requires
                b <= 15u8 && f <= 15u8,
        ;
        ColorCode((b << 4u8) | f)
    }

    /// The packed byte value.
    pub fn value(self) -> (r: u8)
        ensures
            r == self.spec_value(),
    {
        self.0
    }
}

/// One cell of the character grid: a byte and its color pair.
#[derive(Debug, Clone, Copy, PartialEq, Eq, Structural)]
pub struct ScreenChar {
    pub ascii_char: u8,
    pub color_code: ColorCode,
}

/// A blank cell in the given color.
pub open spec fn blank_char(color: ColorCode) -> ScreenChar {
    ScreenChar { ascii_char: 32u8, color_code: color }
}

/// The grid after scrolling: every row moves up by one, and the bottom row
/// becomes blank in the given color. The grid is row-major,
/// `BUFFER_HEIGHT` rows of `BUFFER_WIDTH` cells.
pub open spec fn scrolled(screen: Seq<ScreenChar>, color: ColorCode) -> Seq<ScreenChar> {
    screen.subrange(BUFFER_WIDTH as int, screen.len() as int)
        + Seq::new(BUFFER_WIDTH as nat, |i: int| blank_char(color))
}

/// The grid and column position after one byte is written: a newline
/// scrolls and returns to column zero; any other byte is placed on the
/// bottom row at the current column (scrolling first if the row is full)
/// and the column advances by one.
pub open spec fn spec_write_byte(
    screen: Seq<ScreenChar>,
    col: int,
    color: ColorCode,
    byte: u8,
) -> (Seq<ScreenChar>, int) {
    if byte == 10 {
        (scrolled(screen, color), 0int)
    } else {
        let (s0, c0) = if col >= BUFFER_WIDTH as int {
            (scrolled(screen, color), 0int)
        } else {
            (screen, col)
        };
        (
            s0.update(
                (BUFFER_HEIGHT as int - 1) * (BUFFER_WIDTH as int) + c0,
                ScreenChar { ascii_char: byte, color_code: color },
            ),
            c0 + 1,
        )
    }
}

/// The grid and column position after a sequence of bytes is written, one
/// after the other.
pub open spec fn spec_write_bytes(
    screen: Seq<ScreenChar>,
    col: int,
    color: ColorCode,
    bytes: Seq<u8>,
) -> (Seq<ScreenChar>, int)
    decreases bytes.len(),
{
    if bytes.len() == 0 {
        (screen, col)
    } else {
        let (s1, c1) = spec_write_byte(screen, col, color, bytes[0]);
        spec_write_bytes(s1, c1, color, bytes.skip(1))
    }
}

/// The character grid, row-major: `BUFFER_HEIGHT * BUFFER_WIDTH` cells.
pub struct Buffer {
    chars: Vec<ScreenChar>,
}

/// Sequential writer over the character grid: writes go to the bottom row
/// left to right, with explicit newline handling and scrolling.
pub struct VgaWriter {
    column_pos: usize,
    color_code: ColorCode,
    buffer: Buffer,
}

impl VgaWriter {
    /// The current column on the bottom row.
    pub closed spec fn col(self) -> int {
        self.column_pos as int
    }

    /// The color pair every written byte is given.
    pub closed spec fn color(self) -> ColorCode {
        self.color_code
    }

    /// The grid contents, row-major.
    pub closed spec fn screen(self) -> Seq<ScreenChar> {
        self.buffer.chars@
    }

    /// The grid has its fixed size and the column is within the row.
    pub open spec fn wf(self) -> bool {
        &&& self.screen().len() == (BUFFER_HEIGHT as int) * (BUFFER_WIDTH as int)
        &&& 0 <= self.col() <= BUFFER_WIDTH as int
    }

    /// A writer over a blank grid, at column zero, writing in the given
    /// color.
    pub fn new(color_code: ColorCode) -> (w: VgaWriter)
        ensures
            w.wf(),
            w.col() == 0,
            w.color() == color_code,
            forall|i: int| 0 <= i < w.screen().len() ==> w.screen()[i] == blank_char(color_code),
    {
        let mut chars: Vec<ScreenChar> = Vec::new();
        let mut i: usize = 0;
        while i < BUFFER_HEIGHT * BUFFER_WIDTH
            invariant
                i as int == chars@.len(),
                i <= BUFFER_HEIGHT * BUFFER_WIDTH,
                forall|j: int| 0 <= j < i as int ==> chars@[j] == blank_char(color_code),
            decreases BUFFER_HEIGHT * BUFFER_WIDTH - i,
        {
            chars.push(ScreenChar { ascii_char: 32u8, color_code: color_code });
            i += 1;
        }
        VgaWriter { column_pos: 0, color_code: color_code, buffer: Buffer { chars } }
    }

    /// The cell at the given row and column.
    pub fn char_at(&self, row: usize, col: usize) -> (c: ScreenChar)
        requires
            self.wf(),
            row < BUFFER_HEIGHT,
            col < BUFFER_WIDTH,
        ensures
            c == self.screen()[row as int * BUFFER_WIDTH as int + col as int],
    {
        self.buffer.chars[row * BUFFER_WIDTH + col]
    }

    /// The current column on the bottom row.
    pub fn column(&self) -> (c: usize)
        ensures
            c as int == self.col(),
    {
        self.column_pos
    }

    /// Blanks one row in the writer's current color.
    fn clear_row(&mut self, row: usize)
        requires
            old(self).wf(),
            row < BUFFER_HEIGHT,
        ensures
            final(self).wf(),
            final(self).col() == old(self).col(),
            final(self).color() == old(self).color(),
            forall|i: int|
                row as int * BUFFER_WIDTH as int <= i
                    < (row as int + 1) * BUFFER_WIDTH as int
                    ==> #[trigger] final(self).screen()[i] == blank_char(old(self).color()),
            forall|i: int|
                0 <= i < old(self).screen().len()
                    && !(row as int * BUFFER_WIDTH as int <= i
                        < (row as int + 1) * BUFFER_WIDTH as int)
                    ==> #[trigger] final(self).screen()[i] == old(self).screen()[i],
    {
        let blank = ScreenChar { ascii_char: 32u8, color_code: self.color_code };
        let mut col: usize = 0;
        while col < BUFFER_WIDTH
            invariant
                old(self).wf(),
                self.wf(),
                row < BUFFER_HEIGHT,
                col <= BUFFER_WIDTH,
                self.col() == old(self).col(),
                self.color() == old(self).color(),
                blank == blank_char(old(self).color()),
                forall|i: int|
                    row as int * BUFFER_WIDTH as int <= i
                        < row as int * BUFFER_WIDTH as int + col as int
                        ==> #[trigger] self.screen()[i] == blank_char(old(self).color()),
                forall|i: int|
                    0 <= i < old(self).screen().len()
                        && !(row as int * BUFFER_WIDTH as int <= i
                            < row as int * BUFFER_WIDTH as int + col as int)
                        ==> #[trigger] self.screen()[i] == old(self).screen()[i],
            decreases BUFFER_WIDTH - col,
        {
            self.buffer.chars.set(row * BUFFER_WIDTH + col, blank);
            col += 1;
        }
    }

    /// Scrolls every row up by one, blanks the bottom row, and returns to
    /// column zero.
    fn new_line(&mut self)
        requires
            old(self).wf(),
        ensures
            final(self).wf(),
            final(self).col() == 0,
            final(self).color() == old(self).color(),
            final(self).screen() == scrolled(old(self).screen(), old(self).color()),
    {
        let mut i: usize = 0;
        while i < (BUFFER_HEIGHT - 1) * BUFFER_WIDTH
            invariant
                old(self).wf(),
                self.wf(),
                i <= (BUFFER_HEIGHT - 1) * BUFFER_WIDTH,
                self.col() == old(self).col(),
                self.color() == old(self).color(),
                forall|j: int| 0 <= j < i as int
                    ==> self.screen()[j] == old(self).screen()[j + BUFFER_WIDTH as int],
                forall|j: int| i as int <= j < old(self).screen().len()
                    ==> self.screen()[j] == old(self).screen()[j],
            decreases (BUFFER_HEIGHT - 1) * BUFFER_WIDTH - i,
        {
            let c = self.buffer.chars[i + BUFFER_WIDTH];
            self.buffer.chars.set(i, c);
            i += 1;
        }
        self.clear_row(BUFFER_HEIGHT - 1);
        self.column_pos = 0;
        proof {
            assert(self.screen() =~= scrolled(old(self).screen(), old(self).color()));
        }
    }

    /// Writes one byte: a newline scrolls; any other byte lands on the
    /// bottom row at the current column (after a scroll when the row is
    /// full) and advances the column.
    pub fn write_byte(&mut self, byte: u8)
        requires
            old(self).wf(),
        ensures
            final(self).wf(),
            final(self).color() == old(self).color(),
            final(self).screen() == spec_write_byte(
                old(self).screen(),
                old(self).col(),
                old(self).color(),
                byte,
            ).0,
            final(self).col() == spec_write_byte(
                old(self).screen(),
                old(self).col(),
                old(self).color(),
                byte,
            ).1,
    {
        if byte == 10u8 {
            self.new_line();
        } else {
            if self.column_pos >= BUFFER_WIDTH {
                self.new_line();
            }
            let row = BUFFER_HEIGHT - 1;
            let col = self.column_pos;
            let color_code = self.color_code;
            self.buffer.chars.set(
                row * BUFFER_WIDTH + col,
                ScreenChar { ascii_char: byte, color_code: color_code },
            );
            self.column_pos = col + 1;
        }
    }

    /// Writes every byte of the string in order.
    pub fn write_str(&mut self, s: &str)
        requires
            old(self).wf(),
        ensures
            final(self).wf(),
            final(self).color() == old(self).color(),
            final(self).screen() == spec_write_bytes(
                old(self).screen(),
                old(self).col(),
                old(self).color(),
                s.spec_bytes(),
            ).0,
            final(self).col() == spec_write_bytes(
                old(self).screen(),
                old(self).col(),
                old(self).color(),
                s.spec_bytes(),
            ).1,
    {
        let bytes = s.as_bytes();
        let n = bytes.len();
        proof {
            assert(bytes@.skip(0) =~= bytes@);
        }
        let mut i: usize = 0;
        while i < n
            invariant
                self.wf(),
                self.color() == old(self).color(),
                bytes@ == s.spec_bytes(),
                i <= n,
                n == bytes@.len(),
                spec_write_bytes(
                    self.screen(),
                    self.col(),
                    old(self).color(),
                    bytes@.skip(i as int),
                ) == spec_write_bytes(
                    old(self).screen(),
                    old(self).col(),
                    old(self).color(),
                    bytes@,
                ),
            decreases n - i,
        {
            let b = bytes[i];
            proof {
                assert(bytes@.skip(i as int)[0] == bytes@[i as int]);
                assert(bytes@.skip(i as int).skip(1) =~= bytes@.skip(i as int + 1));
            }
            self.write_byte(b);
            i += 1;
        }
        proof {
            assert(bytes@.skip(n as int) =~= Seq::<u8>::empty());
        }
    }
}

/// Writes the text through the given writer: the owned, injected stand-in
/// for a process-wide console.
pub fn print(writer: &mut VgaWriter, s: &str)
    requires
        old(writer).wf(),
    ensures
        final(writer).wf(),
        final(writer).color() == old(writer).color(),
        final(writer).screen() == spec_write_bytes(
            old(writer).screen(),
            old(writer).col(),
            old(writer).color(),
            s.spec_bytes(),
        ).0,
        final(writer).col() == spec_write_bytes(
            old(writer).screen(),
            old(writer).col(),
            old(writer).color(),
            s.spec_bytes(),
        ).1,
{
    writer.write_str(s);
}

/// Scrolls a full screen of newlines through: afterwards every cell is
/// blank and the column is zero.
pub fn clear_screen(writer: &mut VgaWriter)
    requires
        old(writer).wf(),
    ensures
        final(writer).wf(),
        final(writer).col() == 0,
        final(writer).color() == old(writer).color(),
        forall|i: int| 0 <= i < final(writer).screen().len()
            ==> final(writer).screen()[i] == blank_char(old(writer).color()),
{
    let mut i: usize = 0;
    while i < BUFFER_HEIGHT
        invariant
            writer.wf(),
            i <= BUFFER_HEIGHT,
            writer.color() == old(writer).color(),
            i > 0 ==> writer.col() == 0,
            forall|j: int|
                (BUFFER_HEIGHT as int) * (BUFFER_WIDTH as int) - (BUFFER_WIDTH as int) * (i as int)
                    <= j < writer.screen().len()
                    ==> writer.screen()[j] == blank_char(old(writer).color()),
        decreases BUFFER_HEIGHT - i,
    {
        let ghost pre = *writer;
        writer.write_byte(10u8);
        proof {
            assert forall|j: int|
                (BUFFER_HEIGHT as int) * (BUFFER_WIDTH as int)
                    - (BUFFER_WIDTH as int) * (i as int + 1) <= j < writer.screen().len()
                implies writer.screen()[j] == blank_char(old(writer).color()) by {
                if j < (BUFFER_HEIGHT as int - 1) * (BUFFER_WIDTH as int) {
                    assert(writer.screen()[j] == pre.screen()[j + BUFFER_WIDTH as int]);
                }
            }
        }
        i += 1;
    }
}

} // verus!
