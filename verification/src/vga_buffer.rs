//! The text-mode display model: a fixed character/color grid with a cursor,
//! scrolling, and an active color pair.
//!
//! Every mutation is specified as a transition on [`ScreenState`], the
//! mathematical model of the surface.  Keeping the hardware buffer and the
//! hardware cursor register in step with this model is the caller's affair.

use vstd::prelude::*;

verus! {

/// Screen height in rows.
pub const BUFFER_HEIGHT: usize = 25;

/// Screen width in columns.
pub const BUFFER_WIDTH: usize = 80;

/// Byte written in place of anything outside the printable range.
pub const PLACEHOLDER: u8 = 254;

/// The newline byte.
pub const NEWLINE: u8 = '\n' as u8;

/// The blank byte.
pub const BLANK: u8 = ' ' as u8;

/// The fixed color enumeration of the text mode.
#[derive(Clone, Copy, PartialEq, Eq, Structural, Debug)]
pub enum Color {
    Black,
    Blue,
    Green,
    Cyan,
    Red,
    Magenta,
    Brown,
    LightGray,
    DarkGray,
    LightBlue,
    LightGreen,
    LightCyan,
    LightRed,
    Pink,
    Yellow,
    White,
}

/// The hardware number of a color.
pub open spec fn color_num_spec(c: Color) -> u8 {
    match c {
        Color::Black => 0,
        Color::Blue => 1,
        Color::Green => 2,
        Color::Cyan => 3,
        Color::Red => 4,
        Color::Magenta => 5,
        Color::Brown => 6,
        Color::LightGray => 7,
        Color::DarkGray => 8,
        Color::LightBlue => 9,
        Color::LightGreen => 10,
        Color::LightCyan => 11,
        Color::LightRed => 12,
        Color::Pink => 13,
        Color::Yellow => 14,
        Color::White => 15,
    }
}

impl Color {
    /// The hardware number of this color.
    pub fn number(&self) -> (n: u8)
        ensures
            n == color_num_spec(*self),
            n < 16,
    {
        match self {
            Color::Black => 0,
            Color::Blue => 1,
            Color::Green => 2,
            Color::Cyan => 3,
            Color::Red => 4,
            Color::Magenta => 5,
            Color::Brown => 6,
            Color::LightGray => 7,
            Color::DarkGray => 8,
            Color::LightBlue => 9,
            Color::LightGreen => 10,
            Color::LightCyan => 11,
            Color::LightRed => 12,
            Color::Pink => 13,
            Color::Yellow => 14,
            Color::White => 15,
        }
    }
}

/// A packed foreground/background color pair.
#[derive(Clone, Copy, PartialEq, Eq, Structural, Debug)]
pub struct ColorCode(pub u8);

/// The packed byte of a color pair: background in the high nibble.
pub open spec fn color_code_spec(fg: Color, bg: Color) -> u8 {
    (color_num_spec(bg) * 16 + color_num_spec(fg)) as u8
}

impl ColorCode {
    /// Pack a foreground and background color.
    pub fn new(foreground: Color, background: Color) -> (r: ColorCode)
        ensures
            r.0 == color_code_spec(foreground, background),
    {
        let f = foreground.number();
        let b = background.number();
        proof {
            assert((b << 4 | f) == b * 16 + f) by (bit_vector)
                requires
                    b < 16 && f < 16,
            ;
        }
        ColorCode(b << 4 | f)
    }
}

/// One cell of the grid: a character byte and its color pair.
#[derive(Clone, Copy, PartialEq, Eq, Structural, Debug)]
pub struct ScreenChar {
    pub ascii_character: u8,
    pub color_code: ColorCode,
}

/// The character grid.
pub struct Buffer {
    chars: Vec<Vec<ScreenChar>>,
}

/// The mathematical model of the display surface.
#[verifier::ext_equal]
pub struct ScreenState {
    pub grid: Seq<Seq<ScreenChar>>,
    pub row: int,
    pub col: int,
    pub color: u8,
    pub fg: Color,
    pub bg: Color,
}

/// A blank cell in the given color.
pub open spec fn blank_char(color: u8) -> ScreenChar {
    ScreenChar { ascii_character: BLANK, color_code: ColorCode(color) }
}

/// A row of identical cells.
pub open spec fn row_of(c: ScreenChar, n: int) -> Seq<ScreenChar> {
    Seq::new(n as nat, |i: int| c)
}

impl ScreenState {
    /// The grid has its fixed shape and the cursor is inside it (the column
    /// may rest one past the last cell).
    pub open spec fn shape_wf(self) -> bool {
        &&& self.grid.len() == BUFFER_HEIGHT
        &&& (forall|r: int| 0 <= r < BUFFER_HEIGHT ==> (#[trigger] self.grid[r]).len()
            == BUFFER_WIDTH)
        &&& 0 <= self.row < BUFFER_HEIGHT
        &&& 0 <= self.col <= BUFFER_WIDTH
    }

    /// Shape plus color consistency: the packed color matches the pair.
    pub open spec fn wf(self) -> bool {
        &&& self.shape_wf()
        &&& self.color == color_code_spec(self.fg, self.bg)
    }
}

/// Advance to the next line: move down, or scroll every row up by one and
/// blank the last row when already at the bottom; the column returns to zero.
pub open spec fn spec_new_line(s: ScreenState) -> ScreenState {
    if s.row < BUFFER_HEIGHT - 1 {
        ScreenState { row: s.row + 1, col: 0, ..s }
    } else {
        let grid = Seq::new(
            s.grid.len(),
            |r: int|
                if r < BUFFER_HEIGHT - 1 {
                    s.grid[r + 1]
                } else {
                    row_of(blank_char(s.color), BUFFER_WIDTH as int)
                },
        );
        ScreenState { grid, col: 0, ..s }
    }
}

/// Write one cell at the cursor and advance the column; the cell just past
/// the one written is blanked in the same color while still on the row.
pub open spec fn spec_write_cell(s: ScreenState, b: u8) -> ScreenState {
    let written = s.grid.update(
        s.row,
        s.grid[s.row].update(s.col, ScreenChar { ascii_character: b, color_code: ColorCode(s.color) }),
    );
    let grid = if s.col + 1 < BUFFER_WIDTH {
        written.update(s.row, written[s.row].update(s.col + 1, blank_char(s.color)))
    } else {
        written
    };
    ScreenState { grid, col: s.col + 1, ..s }
}

/// Write one byte: a newline advances the line; anything else wraps first if
/// the column is full, then writes a cell.
pub open spec fn spec_write_byte(s: ScreenState, b: u8) -> ScreenState {
    if b == NEWLINE {
        spec_new_line(s)
    } else {
        let s1 = if s.col >= BUFFER_WIDTH {
            spec_new_line(s)
        } else {
            s
        };
        spec_write_cell(s1, b)
    }
}

/// What a byte shows as: itself if printable or newline, the placeholder
/// glyph otherwise.
pub open spec fn glyph_of(b: u8) -> u8 {
    if (32 <= b <= 126) || b == NEWLINE {
        b
    } else {
        PLACEHOLDER
    }
}

/// Write a byte string, glyph by glyph.
pub open spec fn spec_write_string(s: ScreenState, bytes: Seq<u8>) -> ScreenState
    decreases bytes.len(),
{
    if bytes.len() == 0 {
        s
    } else {
        spec_write_string(spec_write_byte(s, glyph_of(bytes[0])), bytes.drop_first())
    }
}

/// Blank one row in the current color; the cursor does not move.
pub open spec fn spec_clear_row(s: ScreenState, row: int) -> ScreenState {
    ScreenState {
        grid: s.grid.update(row, row_of(blank_char(s.color), BUFFER_WIDTH as int)),
        ..s
    }
}

/// Blank the whole grid in the given color pair and home the cursor.
pub open spec fn spec_cleared(fg: Color, bg: Color) -> ScreenState {
    ScreenState {
        grid: Seq::new(
            BUFFER_HEIGHT as nat,
            |r: int| row_of(blank_char(color_code_spec(fg, bg)), BUFFER_WIDTH as int),
        ),
        row: 0,
        col: 0,
        color: color_code_spec(fg, bg),
        fg,
        bg,
    }
}

/// Step the cursor back one cell (up a row from column zero, never above the
/// top) and blank the cell now under it.
pub open spec fn spec_backspace(s: ScreenState) -> ScreenState {
    let (row, col): (int, int) = if s.col == 0 {
        if s.row > 0 {
            (s.row - 1, BUFFER_WIDTH - 1)
        } else {
            (s.row, s.col)
        }
    } else {
        (s.row, s.col - 1)
    };
    ScreenState {
        grid: s.grid.update(row, s.grid[row].update(col, blank_char(s.color))),
        row,
        col,
        ..s
    }
}

/// Writing text never changes the active color pair.
pub proof fn lemma_write_string_keeps_colors(s: ScreenState, bytes: Seq<u8>)
    ensures
        spec_write_string(s, bytes).fg == s.fg,
        spec_write_string(s, bytes).bg == s.bg,
        spec_write_string(s, bytes).color == s.color,
    decreases bytes.len(),
{
    if bytes.len() > 0 {
        lemma_write_string_keeps_colors(spec_write_byte(s, glyph_of(bytes[0])), bytes.drop_first());
    }
}

/// The display driver: the grid, the cursor, and the active color pair.
pub struct Writer {
    column_position: usize,
    row_position: usize,
    color_code: ColorCode,
    background_color: Color,
    foreground_color: Color,
    buffer: Buffer,
}

/// The views of a row list.
pub open spec fn rows_view(cs: Seq<Vec<ScreenChar>>) -> Seq<Seq<ScreenChar>> {
    Seq::new(cs.len(), |i: int| cs[i]@)
}

impl View for Writer {
    type V = ScreenState;

    closed spec fn view(&self) -> ScreenState {
        ScreenState {
            grid: rows_view(self.buffer.chars@),
            row: self.row_position as int,
            col: self.column_position as int,
            color: self.color_code.0,
            fg: self.foreground_color,
            bg: self.background_color,
        }
    }
}

/// A fresh row of `n` copies of `c`.
fn make_row(c: ScreenChar, n: usize) -> (r: Vec<ScreenChar>)
    ensures
        r@ == row_of(c, n as int),
{
    let mut r: Vec<ScreenChar> = Vec::new();
    let mut i: usize = 0;
    while i < n
        invariant
            i <= n,
            r@ == row_of(c, i as int),
        decreases n - i,
    {
        r.push(c);
        assert(r@ =~= row_of(c, i + 1 as int));
        i += 1;
    }
    r
}

/// An owned copy of a row.
fn copy_row(v: &Vec<ScreenChar>) -> (r: Vec<ScreenChar>)
    ensures
        r@ == v@,
{
    let mut r: Vec<ScreenChar> = Vec::new();
    let mut i: usize = 0;
    while i < v.len()
        invariant
            i <= v@.len(),
            r@ == v@.subrange(0, i as int),
        decreases v@.len() - i,
    {
        r.push(v[i]);
        assert(v@.subrange(0, i + 1 as int) =~= v@.subrange(0, i as int).push(v@[i as int]));
        i += 1;
    }
    proof {
        assert(v@.subrange(0, v@.len() as int) =~= v@);
    }
    r
}

impl Writer {
    /// A fresh surface: blank grid, cursor at the origin, green on black.
    pub fn new() -> (w: Writer)
        ensures
            w@.wf(),
            w@ == spec_cleared(Color::Green, Color::Black),
    {
        let color_code = ColorCode::new(Color::Green, Color::Black);
        let blank = ScreenChar { ascii_character: BLANK, color_code };
        let mut chars: Vec<Vec<ScreenChar>> = Vec::new();
        let mut r: usize = 0;
        while r < BUFFER_HEIGHT
            invariant
                r <= BUFFER_HEIGHT,
                chars@.len() == r,
                forall|i: int| 0 <= i < r ==> (#[trigger] chars@[i])@ == row_of(
                    blank,
                    BUFFER_WIDTH as int,
                ),
        decreases BUFFER_HEIGHT - r,
        {
            chars.push(make_row(blank, BUFFER_WIDTH));
            r += 1;
        }
        let w = Writer {
            column_position: 0,
            row_position: 0,
            color_code,
            background_color: Color::Black,
            foreground_color: Color::Green,
            buffer: Buffer { chars },
        };
        proof {
            assert(blank == blank_char(color_code_spec(Color::Green, Color::Black)));
            assert(w@ =~~= spec_cleared(Color::Green, Color::Black));
        }
        w
    }

    /// The row the cursor is on.
    pub fn cursor_row(&self) -> (r: usize)
        ensures
            r == self@.row,
    {
        self.row_position
    }

    /// The column the cursor is on.
    pub fn cursor_col(&self) -> (r: usize)
        ensures
            r == self@.col,
    {
        self.column_position
    }

    /// The character byte shown at a cell.
    pub fn char_at(&self, row: usize, col: usize) -> (r: u8)
        requires
            self@.wf(),
            row < BUFFER_HEIGHT,
            col < BUFFER_WIDTH,
        ensures
            r == self@.grid[row as int][col as int].ascii_character,
    {
        proof {
            assert(self@.grid[row as int] == self.buffer.chars@[row as int]@);
        }
        self.buffer.chars[row][col].ascii_character
    }

    /// The packed color shown at a cell.
    pub fn color_at(&self, row: usize, col: usize) -> (r: u8)
        requires
            self@.wf(),
            row < BUFFER_HEIGHT,
            col < BUFFER_WIDTH,
        ensures
            r == self@.grid[row as int][col as int].color_code.0,
    {
        proof {
            assert(self@.grid[row as int] == self.buffer.chars@[row as int]@);
        }
        self.buffer.chars[row][col].color_code.0
    }

    /// Reposition the cursor without writing.
    pub fn set_cursor(&mut self, row: usize, col: usize)
        requires
            row < BUFFER_HEIGHT,
            col < BUFFER_WIDTH,
        ensures
            final(self)@ == (ScreenState { row: row as int, col: col as int, ..old(self)@ }),
    {
        self.row_position = row;
        self.column_position = col;
        proof {
            assert(final(self)@ =~~= (ScreenState {
                row: row as int,
                col: col as int,
                ..old(self)@
            }));
        }
    }

    /// Blank one row in the current color.
    fn clear_row(&mut self, row: usize)
        requires
            old(self)@.wf(),
            row < BUFFER_HEIGHT,
        ensures
            final(self)@.wf(),
            final(self)@ == spec_clear_row(old(self)@, row as int),
    {
        let blank = ScreenChar { ascii_character: BLANK, color_code: self.color_code };
        let fresh = make_row(blank, BUFFER_WIDTH);
        self.buffer.chars[row] = fresh;
        proof {
            assert(final(self)@.grid =~= spec_clear_row(old(self)@, row as int).grid);
            assert(final(self)@ =~~= spec_clear_row(old(self)@, row as int));
        }
    }

    /// Blank the whole grid in the current color pair and home the cursor.
    pub fn clear_screen(&mut self)
        requires
            old(self)@.wf(),
        ensures
            final(self)@.wf(),
            final(self)@ == spec_cleared(old(self)@.fg, old(self)@.bg),
    {
        let mut row: usize = 0;
        while row < BUFFER_HEIGHT
            invariant
                old(self)@.wf(),
                row <= BUFFER_HEIGHT,
                self@.wf(),
                self@.fg == old(self)@.fg,
                self@.bg == old(self)@.bg,
                self@.color == old(self)@.color,
                self@.row == old(self)@.row,
                self@.col == old(self)@.col,
                forall|i: int| 0 <= i < row ==> self@.grid[i] == row_of(
                    blank_char(old(self)@.color),
                    BUFFER_WIDTH as int,
                ),
            decreases BUFFER_HEIGHT - row,
        {
            self.clear_row(row);
            row += 1;
        }
        self.column_position = 0;
        self.row_position = 0;
        proof {
            assert(final(self)@ =~~= spec_cleared(old(self)@.fg, old(self)@.bg));
        }
    }

    /// Blank the row the cursor is on and return the cursor to column zero.
    pub fn clear_current_line(&mut self)
        requires
            old(self)@.wf(),
        ensures
            final(self)@.wf(),
            final(self)@ == (ScreenState { col: 0, ..spec_clear_row(old(self)@, old(self)@.row) }),
    {
        let row = self.row_position;
        self.clear_row(row);
        self.column_position = 0;
        proof {
            assert(final(self)@ =~~= (ScreenState {
                col: 0,
                ..spec_clear_row(old(self)@, old(self)@.row)
            }));
        }
    }

    /// Recompute the packed color from the pair and wipe the screen with it:
    /// color changes never recolor existing text in place.
    pub fn set_color_code(&mut self)
        requires
            old(self)@.shape_wf(),
        ensures
            final(self)@.wf(),
            final(self)@ == spec_cleared(old(self)@.fg, old(self)@.bg),
    {
        self.color_code = ColorCode::new(self.foreground_color, self.background_color);
        self.clear_screen();
    }

    /// Change the foreground color; the screen is wiped in the new pair.
    pub fn set_foreground(&mut self, color: Color)
        requires
            old(self)@.wf(),
        ensures
            final(self)@.wf(),
            final(self)@ == spec_cleared(color, old(self)@.bg),
    {
        self.foreground_color = color;
        self.set_color_code();
    }

    /// Change the background color; the screen is wiped in the new pair.
    pub fn set_background(&mut self, color: Color)
        requires
            old(self)@.wf(),
        ensures
            final(self)@.wf(),
            final(self)@ == spec_cleared(old(self)@.fg, color),
    {
        self.background_color = color;
        self.set_color_code();
    }

    /// Advance to the next line, scrolling at the bottom.
    fn new_line(&mut self)
        requires
            old(self)@.wf(),
        ensures
            final(self)@.wf(),
            final(self)@ == spec_new_line(old(self)@),
    {
        if self.row_position < BUFFER_HEIGHT - 1 {
            self.row_position += 1;
            self.column_position = 0;
            proof {
                assert(final(self)@ =~~= spec_new_line(old(self)@));
            }
        } else {
            let mut row: usize = 1;
            while row < BUFFER_HEIGHT
                invariant
                    old(self)@.wf(),
                    old(self)@.row == BUFFER_HEIGHT - 1,
                    1 <= row <= BUFFER_HEIGHT,
                    self@.wf(),
                    self@.fg == old(self)@.fg,
                    self@.bg == old(self)@.bg,
                    self@.color == old(self)@.color,
                    self@.row == old(self)@.row,
                    self@.col == old(self)@.col,
                    forall|i: int| 0 <= i < row - 1 ==> self@.grid[i] == old(self)@.grid[i + 1],
                    forall|i: int| row - 1 <= i < BUFFER_HEIGHT ==> self@.grid[i]
                        == old(self)@.grid[i],
                decreases BUFFER_HEIGHT - row,
            {
                let ghost pre = self@;
                let src = copy_row(&self.buffer.chars[row]);
                proof {
                    assert(pre.grid[row as int] == self.buffer.chars@[row as int]@);
                }
                self.buffer.chars[row - 1] = src;
                proof {
                    assert(forall|k: int|
                        0 <= k < BUFFER_HEIGHT && k != row - 1 ==> #[trigger] self@.grid[k]
                            == pre.grid[k]);
                    assert(self@.grid[row - 1] == pre.grid[row as int]);
                }
                row += 1;
            }
            self.clear_row(BUFFER_HEIGHT - 1);
            self.column_position = 0;
            proof {
                assert(final(self)@.grid =~= spec_new_line(old(self)@).grid);
                assert(final(self)@ =~~= spec_new_line(old(self)@));
            }
        }
    }

    /// Write one byte at the cursor: newline advances the line; anything
    /// else wraps first when the row is full, is written in the current
    /// color, and blanks the cell just past it while still on the row.
    pub fn write_byte(&mut self, byte: u8)
        requires
            old(self)@.wf(),
        ensures
            final(self)@.wf(),
            final(self)@ == spec_write_byte(old(self)@, byte),
            final(self)@.fg == old(self)@.fg,
            final(self)@.bg == old(self)@.bg,
            final(self)@.color == old(self)@.color,
    {
        if byte == NEWLINE {
            self.new_line();
        } else {
            if self.column_position >= BUFFER_WIDTH {
                self.new_line();
            }
            let ghost s1 = self@;
            let row = self.row_position;
            let col = self.column_position;
            let color_code = self.color_code;
            let rowv = &mut self.buffer.chars[row];
            rowv[col] = ScreenChar { ascii_character: byte, color_code };
            if col + 1 < BUFFER_WIDTH {
                rowv[col + 1] = ScreenChar { ascii_character: BLANK, color_code };
            }
            proof {
                assert(self@.grid =~= spec_write_cell(s1, byte).grid);
            }
            self.column_position += 1;
            proof {
                assert(final(self)@ =~~= spec_write_cell(s1, byte));
            }
        }
    }

    /// Write a byte string, replacing anything outside the printable set
    /// (and newline) with the placeholder glyph.
    pub fn write_string(&mut self, s: &[u8])
        requires
            old(self)@.wf(),
        ensures
            final(self)@.wf(),
            final(self)@ == spec_write_string(old(self)@, s@),
            final(self)@.fg == old(self)@.fg,
            final(self)@.bg == old(self)@.bg,
            final(self)@.color == old(self)@.color,
    {
        proof {
            lemma_write_string_keeps_colors(old(self)@, s@);
            assert(s@.skip(0) =~= s@);
        }
        let mut i: usize = 0;
        while i < s.len()
            invariant
                i <= s@.len(),
                self@.wf(),
                spec_write_string(self@, s@.skip(i as int)) == spec_write_string(old(self)@, s@),
            decreases s@.len() - i,
        {
            let ghost before = self@;
            let byte = s[i];
            if 32 <= byte && byte <= 126 || byte == NEWLINE {
                self.write_byte(byte);
            } else {
                self.write_byte(PLACEHOLDER);
            }
            proof {
                let rest = s@.skip(i as int);
                assert(rest[0] == s@[i as int]);
                assert(rest.drop_first() =~= s@.skip(i + 1));
                assert(self@ == spec_write_byte(before, glyph_of(rest[0])));
            }
            i += 1;
        }
        proof {
            assert(s@.skip(s@.len() as int).len() == 0);
        }
    }

    /// Step the cursor back one cell (up a row from column zero, never above
    /// the top) and blank the cell now under it.
    pub fn backspace(&mut self)
        requires
            old(self)@.wf(),
        ensures
            final(self)@.wf(),
            final(self)@ == spec_backspace(old(self)@),
    {
        if self.column_position == 0 {
            if self.row_position > 0 {
                self.row_position -= 1;
                self.column_position = BUFFER_WIDTH - 1;
            }
        } else {
            self.column_position -= 1;
        }
        let ghost s = old(self)@;
        let row = self.row_position;
        let col = self.column_position;
        let color_code = self.color_code;
        let rowv = &mut self.buffer.chars[row];
        rowv[col] = ScreenChar { ascii_character: BLANK, color_code };
        proof {
            assert(final(self)@.grid =~= spec_backspace(s).grid);
            assert(final(self)@ =~~= spec_backspace(s));
        }
    }
}

} // verus!
