use crate::lines::{
    last_line_len, lemma_last_line_extends, lemma_lines_within_break, lemma_lines_within_extends,
    lemma_lines_within_joined, lines_within, unbroken,
};
use crate::numerals::{decimal, lemma_decimal_len, lemma_decimal_unbroken, push_decimal};
use crate::ppm::{
    clamp_color, clamped, colors_to_ppm_string, lemma_line_text_width, line_text, COLORSCALE,
    LINE_BREAK_AT,
};
use vstd::prelude::*;
use vstd::string::StringExecFns;

verus! {

/// A colour as three channel intensities, counted in 256ths: 0 is no light and
/// 256 is full intensity. A channel may lie outside that range; it is held to
/// the displayable range only when the canvas is written out.
#[derive(Clone, Copy, Debug, PartialEq, Eq, Structural)]
pub struct Color {
    pub red: i32,
    pub green: i32,
    pub blue: i32,
}

impl Color {
    /// The colour with the three intensities given.
    pub fn new(red: i32, green: i32, blue: i32) -> (color: Color)
        ensures
            color == (Color { red, green, blue }),
    {
        Color { red, green, blue }
    }

    /// The colour without any light.
    pub open spec fn black() -> Color {
        Color { red: 0, green: 0, blue: 0 }
    }
}

/// The byte that shows an intensity on a screen: the intensity itself, and 255
/// for every intensity above.
pub fn convert_and_clamp(intensity: u16) -> (byte: u8)
    ensures
        byte == if intensity > 255 {
            255
        } else {
            intensity as int
        },
{
    if intensity > 255 {
        255
    } else {
        intensity as u8
    }
}

/// Why a pixel could not be written.
#[derive(Clone, Copy, Debug, PartialEq, Eq, Structural)]
pub enum CanvasError {
    /// The position lies outside the canvas.
    OutOfBounds,
}

/// A rectangle of pixels, stored row by row from the top left corner.
pub struct Canvas {
    pub width: usize,
    pub height: usize,
    pub canvas: Vec<Color>,
}

/// The three samples of each pixel in turn, held to the displayable range.
pub open spec fn samples_of(pixels: Seq<Color>) -> Seq<i32>
    decreases pixels.len(),
{
    if pixels.len() == 0 {
        Seq::empty()
    } else {
        let last = pixels.last();
        samples_of(pixels.drop_last()).push(clamped(last.red as int) as i32).push(
            clamped(last.green as int) as i32,
        ).push(clamped(last.blue as int) as i32)
    }
}

/// The first three lines of a plain pixel map: the magic number, the width and
/// height, and the largest sample value.
pub open spec fn ppm_header(width: nat, height: nat) -> Seq<char> {
    seq!['P', '3', '\n'] + decimal(width) + seq![' '] + decimal(height) + seq!['\n'] + decimal(
        COLORSCALE as nat,
    ) + seq!['\n']
}

/// The text of the first `rows` rows of pixels, each row laid out by `line_text`
/// and closed by a line break.
pub open spec fn ppm_rows(width: nat, rows: nat, pixels: Seq<Color>) -> Seq<char>
    decreases rows,
{
    if rows == 0 {
        Seq::empty()
    } else {
        let row = pixels.subrange((rows - 1) * width, (rows * width) as int);
        ppm_rows(width, (rows - 1) as nat, pixels) + line_text(samples_of(row)) + seq!['\n']
    }
}

/// The whole plain pixel map of a canvas: header, rows, and a closing line break.
pub open spec fn ppm_text(width: nat, height: nat, pixels: Seq<Color>) -> Seq<char> {
    ppm_header(width, height) + ppm_rows(width, height, pixels) + seq!['\n']
}

/// Every sample of a row lies in the displayable range.
pub proof fn lemma_samples_in_range(pixels: Seq<Color>)
    ensures
        samples_of(pixels).len() == 3 * pixels.len(),
        forall|i: int|
            0 <= i < samples_of(pixels).len() ==> 0 <= #[trigger] samples_of(pixels)[i]
                <= COLORSCALE,
    decreases pixels.len(),
{
    if pixels.len() > 0 {
        lemma_samples_in_range(pixels.drop_last());
    }
}

proof fn lemma_header_lines(width: nat, height: nat)
    requires
        width <= usize::MAX,
        height <= usize::MAX,
    ensures
        lines_within(ppm_header(width, height), LINE_BREAK_AT as nat),
        last_line_len(ppm_header(width, height)) == 0,
{
    let limit = LINE_BREAK_AT as nat;
    let none = Seq::<char>::empty();
    assert(forall|i: int| 0 <= i <= 0 ==> #[trigger] none.take(i) =~= none);
    let magic = seq!['P', '3'];
    assert(unbroken(magic));
    lemma_lines_within_extends(none, magic, limit);
    let first = (none + magic).push('\n');
    lemma_lines_within_break(none + magic, limit);
    assert(first =~= seq!['P', '3', '\n']);
    lemma_decimal_len(width);
    lemma_decimal_unbroken(width);
    lemma_lines_within_extends(first, decimal(width), limit);
    lemma_last_line_extends(first, decimal(width));
    let blank = seq![' '];
    assert(unbroken(blank));
    lemma_lines_within_extends(first + decimal(width), blank, limit);
    lemma_last_line_extends(first + decimal(width), blank);
    lemma_decimal_len(height);
    lemma_decimal_unbroken(height);
    let sized = first + decimal(width) + blank + decimal(height);
    lemma_lines_within_extends(first + decimal(width) + blank, decimal(height), limit);
    lemma_lines_within_break(sized, limit);
    let second = sized.push('\n');
    assert(second =~= sized + seq!['\n']);
    lemma_decimal_len(COLORSCALE as nat);
    lemma_decimal_unbroken(COLORSCALE as nat);
    lemma_lines_within_extends(second, decimal(COLORSCALE as nat), limit);
    lemma_lines_within_break(second + decimal(COLORSCALE as nat), limit);
    assert((second + decimal(COLORSCALE as nat)).push('\n') =~= ppm_header(width, height));
}

proof fn lemma_rows_lines(width: nat, rows: nat, pixels: Seq<Color>)
    ensures
        lines_within(ppm_rows(width, rows, pixels), LINE_BREAK_AT as nat),
        last_line_len(ppm_rows(width, rows, pixels)) == 0,
    decreases rows,
{
    let limit = LINE_BREAK_AT as nat;
    if rows == 0 {
        let none = Seq::<char>::empty();
        assert(forall|i: int| 0 <= i <= 0 ==> #[trigger] none.take(i) =~= none);
    } else {
        lemma_rows_lines(width, (rows - 1) as nat, pixels);
        let above = ppm_rows(width, (rows - 1) as nat, pixels);
        let row = pixels.subrange((rows - 1) * width, (rows * width) as int);
        lemma_line_text_width(samples_of(row));
        lemma_lines_within_joined(above, line_text(samples_of(row)), limit);
        lemma_lines_within_break(above + line_text(samples_of(row)), limit);
        assert((above + line_text(samples_of(row))).push('\n') =~= ppm_rows(width, rows, pixels));
    }
}

/// No line of a pixel map is longer than `LINE_BREAK_AT` characters, which keeps
/// it within the 70 characters that readers of the format accept.
pub proof fn lemma_ppm_lines_are_short(width: nat, height: nat, pixels: Seq<Color>)
    requires
        width <= usize::MAX,
        height <= usize::MAX,
    ensures
        lines_within(ppm_text(width, height, pixels), LINE_BREAK_AT as nat),
{
    let limit = LINE_BREAK_AT as nat;
    lemma_header_lines(width, height);
    lemma_rows_lines(width, height, pixels);
    let body = ppm_header(width, height) + ppm_rows(width, height, pixels);
    lemma_lines_within_joined(ppm_header(width, height), ppm_rows(width, height, pixels), limit);
    lemma_lines_within_break(body, limit);
    assert(body.push('\n') =~= ppm_text(width, height, pixels));
}

impl Canvas {
    /// A canvas holds exactly one colour for each of its `width * height` pixels.
    pub open spec fn wf(&self) -> bool {
        self.canvas@.len() == self.width * self.height
    }

    /// The position in the buffer of the pixel in column `x` of row `y`.
    pub open spec fn offset(&self, x: int, y: int) -> int {
        self.width * y + x
    }

    /// The colour of the pixel in column `x` of row `y`.
    pub open spec fn pixel(&self, x: int, y: int) -> Color {
        self.canvas@[self.offset(x, y)]
    }

    /// Whether column `x` of row `y` lies on the canvas.
    pub open spec fn holds(&self, x: int, y: int) -> bool {
        0 <= x < self.width && 0 <= y < self.height
    }

    /// Every pixel of the canvas has its place in the buffer, behind the rows
    /// above it.
    pub proof fn lemma_offset_in_buffer(&self, x: int, y: int)
        requires
            self.wf(),
            self.holds(x, y),
        ensures
            0 <= self.width * y <= self.offset(x, y) < self.canvas@.len(),
    {
        assert(self.width * y + x < self.width * self.height) by (nonlinear_arith)
            requires
                0 <= x < self.width,
                0 <= y < self.height,
        ;
        assert(0 <= self.width * y) by (nonlinear_arith)
            requires
                0 <= y,
        ;
    }

    /// A canvas of `w` by `h` pixels, all of them black.
    pub fn new(w: usize, h: usize) -> (c: Canvas)
        requires
            w * h <= usize::MAX,
        ensures
            c.wf(),
            c.width == w,
            c.height == h,
            forall|i: int| 0 <= i < w * h ==> c.canvas@[i] == Color::black(),
    {
        let total: usize = w * h;
        let mut pixels: Vec<Color> = Vec::new();
        let mut i: usize = 0;
        while i < total
            invariant
                i <= total,
                pixels@.len() == i,
                forall|k: int| 0 <= k < i ==> pixels@[k] == Color::black(),
            decreases total - i,
        {
            pixels.push(Color { red: 0, green: 0, blue: 0 });
            i += 1;
        }
        Canvas { width: w, height: h, canvas: pixels }
    }

    /// Gives the pixel in column `x` of row `y` the colour `color`. A position
    /// outside the canvas is refused and the canvas stays as it is.
    pub fn write_pixel(&mut self, x: usize, y: usize, color: Color) -> (done: Result<
        (),
        CanvasError,
    >)
        requires
            old(self).wf(),
        ensures
            final(self).wf(),
            final(self).width == old(self).width,
            final(self).height == old(self).height,
            old(self).holds(x as int, y as int) ==> done == Ok::<(), CanvasError>(())
                && final(self).canvas@ == old(self).canvas@.update(
                old(self).offset(x as int, y as int),
                color,
            ),
            !old(self).holds(x as int, y as int) ==> done == Err::<(), CanvasError>(
                CanvasError::OutOfBounds,
            ) && final(self).canvas@ == old(self).canvas@,
    {
        if x < self.width && y < self.height {
            let len: usize = self.canvas.len();
            proof {
                self.lemma_offset_in_buffer(x as int, y as int);
            }
            let pos: usize = self.width * y + x;
            self.canvas.set(pos, color);
            Ok(())
        } else {
            Err(CanvasError::OutOfBounds)
        }
    }

    /// The colour of the pixel in column `x` of row `y`.
    pub fn pixel_at(&self, x: usize, y: usize) -> (color: Color)
        requires
            self.wf(),
            self.holds(x as int, y as int),
        ensures
            color == self.pixel(x as int, y as int),
    {
        let len: usize = self.canvas.len();
        proof {
            self.lemma_offset_in_buffer(x as int, y as int);
        }
        let pos: usize = self.width * y + x;
        self.canvas[pos]
    }

    /// The canvas as a plain pixel map: the header, then the samples of each
    /// row of pixels in lines of at most `LINE_BREAK_AT` characters, then an
    /// empty line.
    pub fn canvas_to_ppm(&self) -> (ppm: String)
        requires
            self.wf(),
        ensures
            ppm@ == ppm_text(self.width as nat, self.height as nat, self.canvas@),
            lines_within(ppm@, LINE_BREAK_AT as nat),
    {
        proof {
            lemma_ppm_lines_are_short(self.width as nat, self.height as nat, self.canvas@);
        }
        let mut ppm = String::from_str("P3\n");
        push_decimal(&mut ppm, self.width);
        ppm.append(" ");
        push_decimal(&mut ppm, self.height);
        ppm.append("\n");
        push_decimal(&mut ppm, COLORSCALE as usize);
        ppm.append("\n");
        proof {
            reveal_strlit("P3\n");
            reveal_strlit(" ");
            reveal_strlit("\n");
            assert("P3\n"@ =~= seq!['P', '3', '\n']);
            assert(" "@ =~= seq![' ']);
            assert("\n"@ =~= seq!['\n']);
            assert(ppm@ =~= ppm_header(self.width as nat, self.height as nat));
        }
        let ghost header = ppm@;
        let mut y: usize = 0;
        while y < self.height
            invariant
                self.wf(),
                y <= self.height,
                "\n"@ == seq!['\n'],
                ppm@ == header + ppm_rows(self.width as nat, y as nat, self.canvas@),
            decreases self.height - y,
        {
            let mut linecolors: Vec<i32> = Vec::new();
            let mut x: usize = 0;
            proof {
                if self.width > 0 {
                    self.lemma_offset_in_buffer(0, y as int);
                }
                assert(self.width * (y + 1) <= self.width * self.height) by (nonlinear_arith)
                    requires
                        y + 1 <= self.height,
                ;
                assert(self.width * (y + 1) == self.width * y + self.width) by (nonlinear_arith);
            }
            let ghost start: int = self.width * y;
            assert(self.canvas@.subrange(start, start) =~= Seq::<Color>::empty());
            while x < self.width
                invariant
                    self.wf(),
                    y < self.height,
                    x <= self.width,
                    start == self.width * y,
                    0 <= start,
                    start + self.width <= self.canvas@.len(),
                    linecolors@ == samples_of(self.canvas@.subrange(start, start + x)),
                decreases self.width - x,
            {
                let color = self.pixel_at(x, y);
                let ghost done = self.canvas@.subrange(start, start + x);
                let ghost next = self.canvas@.subrange(start, start + x + 1);
                proof {
                    assert(next.drop_last() =~= done);
                    assert(next.last() == color);
                }
                linecolors.push(clamp_color(color.red));
                linecolors.push(clamp_color(color.green));
                linecolors.push(clamp_color(color.blue));
                x += 1;
            }
            let line = colors_to_ppm_string(linecolors.as_slice());
            ppm.append(line.as_str());
            ppm.append("\n");
            proof {
                assert(start + self.width == (y + 1) * self.width) by (nonlinear_arith)
                    requires
                        start == self.width * y,
                ;
                assert((y + 1 - 1) * self.width == start) by (nonlinear_arith)
                    requires
                        start == self.width * y,
                ;
                assert(ppm@ =~= header + ppm_rows(
                    self.width as nat,
                    (y + 1) as nat,
                    self.canvas@,
                ));
            }
            y += 1;
        }
        ppm.append("\n");
        assert(ppm@ =~= ppm_text(self.width as nat, self.height as nat, self.canvas@));
        ppm
    }
}

} // verus!
