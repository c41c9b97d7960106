use crate::screen::{Point, TextOutputter};
use vstd::prelude::*;

verus! {

/// Number of bytes of the escape sequence that `write` puts before a frame.
pub const HOME_LEN: usize = 6;

/// The escape sequence that sends the cursor to the first column of the top
/// line: escape, `[0;1H`.
pub open spec fn cursor_home() -> Seq<u8> {
    seq![27u8, 91u8, 48u8, 59u8, 49u8, 72u8]
}

/// An output for a terminal. It learns its size from the terminal and keeps
/// in `frame` the bytes that are to be sent there.
pub struct TerminalOutputer {
    pub height: usize,
    pub width: usize,
    pub frame: Vec<u8>,
}

/// Asks `terminal_size::terminal_size` for the width and height of the
/// terminal that the process is attached to. Nothing is claimed of the
/// answer: it depends on the terminal, and there may be none.
#[verifier::external_body]
fn terminal_dimensions() -> (size: Option<(u16, u16)>)
{
    match terminal_size::terminal_size() {
        Some((terminal_size::Width(w), terminal_size::Height(h))) => Some((w, h)),
        None => None,
    }
}

impl TerminalOutputer {
    pub fn new() -> (r: TerminalOutputer)
        ensures
            r.height == 0,
            r.width == 0,
            r.frame@.len() == 0,
    {
        TerminalOutputer { height: 0, width: 0, frame: Vec::new() }
    }

    /// The output has a size to draw into.
    pub open spec fn ready(self) -> bool {
        self.width > 0 && self.height > 0
    }

    /// Whether the output has a size to draw into.
    pub fn is_ready(&self) -> (r: bool)
        ensures
            r == self.ready(),
    {
        self.width > 0 && self.height > 0
    }

    /// Takes the size that the terminal reported: `frame` becomes one blank
    /// per character cell. Without a size nothing changes and `false` comes
    /// back.
    pub fn apply_size(&mut self, size: Option<(u16, u16)>) -> (known: bool)
        ensures
            known == size is Some,
            match size {
                Some((w, h)) => {
                    &&& final(self).width == w
                    &&& final(self).height == h
                    &&& final(self).frame@ == Seq::new((w * h) as nat, |i: int| 32u8)
                },
                None => *final(self) == *old(self),
            },
    {
        match size {
            Some((w, h)) => {
                self.width = w as usize;
                self.height = h as usize;
                assert(0 <= w * h <= 0xffff * 0xffff) by (nonlinear_arith)
                    requires
                        0 <= w <= 0xffff,
                        0 <= h <= 0xffff,
                ;
                let cells: usize = (w as usize) * (h as usize);
                let mut frame: Vec<u8> = Vec::new();
                let mut i: usize = 0;
                while i < cells
                    invariant
                        0 <= i <= cells,
                        frame@ == Seq::new(i as nat, |k: int| 32u8),
                    decreases cells - i,
                {
                    frame.push(32u8);
                    assert(frame@ =~= Seq::new((i + 1) as nat, |k: int| 32u8));
                    i = i + 1;
                }
                self.frame = frame;
                true
            },
            None => false,
        }
    }
}

impl TextOutputter for TerminalOutputer {
    open spec fn cols(&self) -> nat {
        self.width as nat
    }

    open spec fn rows(&self) -> nat {
        self.height as nat
    }

    open spec fn shown(&self) -> Seq<u8> {
        self.frame@.skip(HOME_LEN as int)
    }

    /// Asks the terminal for its size and takes it, if there is one: then
    /// `frame` is one blank per character cell. Else nothing changes.
    fn setup(&mut self)
        ensures
            *final(self) == *old(self) || final(self).frame@ == Seq::new(
                (final(self).width * final(self).height) as nat,
                |i: int| 32u8,
            ),
    {
        let size = terminal_dimensions();
        let _ = self.apply_size(size);
    }

    /// Setting up leaves the output as it is, where the terminal gives no
    /// size, or takes the terminal's size and makes `frame` one blank per
    /// character cell.
    open spec fn set_up(&self, after: &Self) -> bool {
        *after == *self || after.frame@ == Seq::new(
            (after.width * after.height) as nat,
            |i: int| 32u8,
        )
    }

    /// Puts into `frame` what is to be sent to the terminal: the escape
    /// sequence that sends the cursor home, then the frame.
    fn write(&mut self, buf: &[u8])
        ensures
            final(self).frame@ == cursor_home() + buf@,
    {
        let mut frame: Vec<u8> = Vec::new();
        frame.push(27u8);
        frame.push(91u8);
        frame.push(48u8);
        frame.push(59u8);
        frame.push(49u8);
        frame.push(72u8);
        assert(frame@ =~= cursor_home());
        let mut i: usize = 0;
        while i < buf.len()
            invariant
                0 <= i <= buf@.len(),
                frame@ == cursor_home() + buf@.take(i as int),
            decreases buf@.len() - i,
        {
            frame.push(buf[i]);
            assert(buf@.take(i as int + 1) =~= buf@.take(i as int).push(buf@[i as int]));
            assert(frame@ =~= cursor_home() + buf@.take(i as int + 1));
            i = i + 1;
        }
        assert(buf@.take(buf@.len() as int) =~= buf@);
        self.frame = frame;
        assert(self.frame@.skip(HOME_LEN as int) =~= buf@);
    }

    fn width(&self) -> (w: usize) {
        self.width
    }

    fn height(&self) -> (h: usize) {
        self.height
    }
}

/// Number of pixel columns of the canvas.
pub const WIDTH: usize = 950;

/// Number of pixel rows of the canvas.
pub const HEIGHT: usize = 670;

/// Number of pixels of the canvas.
pub const PIXELS: usize = 636_500;

/// The pixel in row `r` and column `c` of a canvas stored row by row.
pub open spec fn at(canvas: Seq<bool>, r: int, c: int) -> bool {
    canvas[r * WIDTH + c]
}

/// Row `r`, column `c` is a place on the canvas.
pub open spec fn on_canvas(r: int, c: int) -> bool {
    0 <= r < HEIGHT && 0 <= c < WIDTH
}

/// `post` is `pre` with the pixels of `shape` lit: a pixel of the canvas is
/// lit afterwards exactly if it was lit before or belongs to the shape.
pub open spec fn painted(pre: Seq<bool>, post: Seq<bool>, shape: Set<(int, int)>) -> bool {
    &&& pre.len() == PIXELS
    &&& post.len() == PIXELS
    &&& forall|r: int, c: int|
        on_canvas(r, c) ==> #[trigger] at(post, r, c) == (at(pre, r, c) || shape.contains((r, c)))
}

/// The single pixel in row `r`, column `c`.
pub open spec fn dot(r: int, c: int) -> Set<(int, int)> {
    Set::new(|q: (int, int)| q.0 == r && q.1 == c)
}

/// The three by three block of pixels around row `r`, column `c`.
pub open spec fn bold(r: int, c: int) -> Set<(int, int)> {
    Set::new(|q: (int, int)| r - 1 <= q.0 <= r + 1 && c - 1 <= q.1 <= c + 1)
}

/// The filled rectangle between two corners, both included.
pub open spec fn rectangle(a: Point, b: Point) -> Set<(int, int)> {
    Set::new(
        |q: (int, int)|
            vstd::math::min(a.0 as int, b.0 as int) <= q.0 <= vstd::math::max(a.0 as int, b.0 as int)
                && vstd::math::min(a.1 as int, b.1 as int) <= q.1 <= vstd::math::max(
                a.1 as int,
                b.1 as int,
            ),
    )
}

/// The characters of palette `p`, from dark to bright.
pub open spec fn glyphs(p: int) -> Seq<u8> {
    if p == 0 {
        seq![32u8, 46u8, 44u8, 58u8, 59u8, 111u8, 79u8, 81u8, 35u8, 64u8]
    } else if p == 1 {
        seq![32u8, 32u8, 32u8, 32u8, 32u8, 46u8, 111u8, 79u8, 64u8, 64u8]
    } else if p == 2 {
        seq![32u8, 46u8, 58u8]
    } else {
        seq![32u8]
    }
}

/// The character that stands for `count` lit pixels out of `max`: the
/// palette's range is spread evenly over the counts; only all pixels lit
/// give the brightest character. Outside the three palettes it is a blank.
pub open spec fn glyph_for(p: int, count: int, max: int) -> u8 {
    glyphs(p)[count * (glyphs(p).len() - 1) / max]
}

/// Painting one shape and then another paints their union.
pub proof fn lemma_painted_twice(
    a: Seq<bool>,
    b: Seq<bool>,
    c: Seq<bool>,
    first: Set<(int, int)>,
    second: Set<(int, int)>,
)
    requires
        painted(a, b, first),
        painted(b, c, second),
    ensures
        painted(a, c, first.union(second)),
{
    assert forall|r: int, col: int| on_canvas(r, col) implies #[trigger] at(c, r, col) == (at(
        a,
        r,
        col,
    ) || first.union(second).contains((r, col))) by {
        assert(at(b, r, col) == (at(a, r, col) || first.contains((r, col))));
    }
}

/// Painting nothing changes nothing that can be seen, and painting a shape
/// is painting any shape with the same pixels on the canvas.
pub proof fn lemma_painted_same(a: Seq<bool>, b: Seq<bool>, shape: Set<(int, int)>, other: Set<(int, int)>)
    requires
        painted(a, b, shape),
        forall|r: int, c: int| on_canvas(r, c) ==> shape.contains((r, c)) == other.contains((r, c)),
    ensures
        painted(a, b, other),
{
    assert forall|r: int, c: int| on_canvas(r, c) implies #[trigger] at(b, r, c) == (at(a, r, c)
        || other.contains((r, c))) by {
        assert(at(b, r, c) == (at(a, r, c) || shape.contains((r, c))));
    }
}

/// A straight run of bold points: it starts at row `r0`, column `c0`, takes
/// `n` steps along the rows or along the columns, and leaves the other
/// coordinate by `minor` in all, in the direction of `sign`.
pub struct Stroke {
    pub r0: int,
    pub c0: int,
    pub n: int,
    pub minor: int,
    pub sign: int,
    pub along_rows: bool,
}

/// How far the run has left its starting line after `k` of `n` steps: the
/// whole number nearest to `k * minor / n`, the lower one where two are
/// equally near.
pub open spec fn nearest(k: int, minor: int, n: int) -> int {
    if n == 0 {
        0
    } else {
        (2 * minor * k + n - 1) / (2 * n)
    }
}

impl Stroke {
    /// The middle of the bold point after `k` steps.
    pub open spec fn center(self, k: int) -> (int, int) {
        if self.along_rows {
            (self.r0 + k, self.c0 + self.sign * nearest(k, self.minor, self.n))
        } else {
            (self.r0 + self.sign * nearest(k, self.minor, self.n), self.c0 + k)
        }
    }

    /// Pixel `q` belongs to the bold point after `k` steps.
    pub open spec fn covers(self, k: int, q: (int, int)) -> bool {
        bold(self.center(k).0, self.center(k).1).contains(q)
    }

    /// The pixels of the first `j` bold points.
    pub open spec fn upto(self, j: int) -> Set<(int, int)> {
        Set::new(|q: (int, int)| exists|k: int| 0 <= k < j && #[trigger] self.covers(k, q))
    }

    /// The pixels of the whole run: the bold points after zero to `n` steps.
    pub open spec fn shape(self) -> Set<(int, int)> {
        self.upto(self.n + 1)
    }
}

/// The run that a line from `a` to `b` is drawn as. It goes along the rows
/// where the rows differ by more than the columns, and for a single point;
/// else along the columns. It starts at the end that comes first along its
/// direction.
pub open spec fn line(a: Point, b: Point) -> Stroke {
    let d0 = b.0 - a.0;
    let d1 = b.1 - a.1;
    if vstd::math::abs(d1) < vstd::math::abs(d0) || (d0 == 0 && d1 == 0) {
        let (from, to) = if a.0 <= b.0 {
            (a, b)
        } else {
            (b, a)
        };
        Stroke {
            r0: from.0 as int,
            c0: from.1 as int,
            n: to.0 - from.0,
            minor: vstd::math::abs(to.1 - from.1) as int,
            sign: if to.1 >= from.1 {
                1
            } else {
                -1
            },
            along_rows: true,
        }
    } else {
        let (from, to) = if a.1 <= b.1 {
            (a, b)
        } else {
            (b, a)
        };
        Stroke {
            r0: from.0 as int,
            c0: from.1 as int,
            n: to.1 - from.1,
            minor: vstd::math::abs(to.0 - from.0) as int,
            sign: if to.0 >= from.0 {
                1
            } else {
                -1
            },
            along_rows: false,
        }
    }
}

/// One more bold point adds its pixels to those of the run so far.
pub proof fn lemma_stroke_grows(s: Stroke, j: int)
    requires
        0 <= j,
    ensures
        s.upto(j + 1) == s.upto(j).union(bold(s.center(j).0, s.center(j).1)),
        s.upto(0) == Set::<(int, int)>::empty(),
{
    assert forall|q: (int, int)| s.upto(j + 1).contains(q) == s.upto(j).union(
        bold(s.center(j).0, s.center(j).1),
    ).contains(q) by {
        if s.upto(j + 1).contains(q) {
            let k = choose|k: int| 0 <= k < j + 1 && #[trigger] s.covers(k, q);
            if k < j {
                assert(s.upto(j).contains(q));
            }
        }
        if s.upto(j).contains(q) {
            let k = choose|k: int| 0 <= k < j && #[trigger] s.covers(k, q);
            assert(0 <= k < j + 1 && s.covers(k, q));
        }
        if bold(s.center(j).0, s.center(j).1).contains(q) {
            assert(0 <= j < j + 1 && s.covers(j, q));
        }
    }
    assert(s.upto(j + 1) =~= s.upto(j).union(bold(s.center(j).0, s.center(j).1)));
    assert(s.upto(0) =~= Set::<(int, int)>::empty());
}

/// The error term of the run decides the next offset: with
/// `2 * minor * k + n - 1 == 2 * n * m + r` and `0 <= r < 2 * n`, the
/// offset after `k` steps is `m`.
pub proof fn lemma_nearest(k: int, minor: int, n: int, m: int, r: int)
    requires
        n > 0,
        0 <= r < 2 * n,
        2 * (minor * k) + n - 1 == 2 * (n * m) + r,
    ensures
        nearest(k, minor, n) == m,
{
    assert(2 * minor * k == 2 * (minor * k)) by (nonlinear_arith);
    assert(m * (2 * n) == 2 * (n * m)) by (nonlinear_arith);
    vstd::arithmetic::div_mod::lemma_fundamental_div_mod_converse(
        2 * minor * k + n - 1,
        2 * n,
        m,
        r,
    );
}

/// Number of lit pixels among the first `w` of row `r` from column `c0` on.
pub open spec fn lit_in_row(canvas: Seq<bool>, r: int, c0: int, w: nat) -> nat
    decreases w,
{
    if w == 0 {
        0
    } else {
        lit_in_row(canvas, r, c0, (w - 1) as nat) + if at(canvas, r, c0 + w - 1) {
            1nat
        } else {
            0nat
        }
    }
}

/// Number of lit pixels in the block of `h` rows from row `r0` on and `w`
/// columns from column `c0` on.
pub open spec fn lit_in_block(canvas: Seq<bool>, r0: int, c0: int, h: nat, w: nat) -> nat
    decreases h,
{
    if h == 0 {
        0
    } else {
        lit_in_block(canvas, r0, c0, (h - 1) as nat, w) + lit_in_row(canvas, r0 + h - 1, c0, w)
    }
}

/// The character in row `i`, column `j` of the frame for an output of
/// `cols` by `rows` characters. Every character stands for a block of
/// pixels; the frame has a border of `#` at the top, at the bottom and on
/// the left, every row ends in a line feed, and the last character is zero.
pub open spec fn frame_cell(
    canvas: Seq<bool>,
    palette: int,
    cols: int,
    rows: int,
    i: int,
    j: int,
) -> u8 {
    let block_h = HEIGHT as int / rows;
    let block_w = WIDTH as int / cols;
    if i == rows - 1 && j == cols - 1 {
        0u8
    } else if j == cols - 1 {
        10u8
    } else if j == 0 || i == 0 || i == rows - 1 {
        35u8
    } else {
        glyph_for(
            palette,
            lit_in_block(canvas, i * block_h, j * block_w, block_h as nat, block_w as nat) as int,
            block_h * block_w,
        )
    }
}

/// The character in row `i`, column `j` of a frame stored row by row.
pub open spec fn cell_at(frame: Seq<u8>, cols: int, i: int, j: int) -> u8 {
    frame[i * cols + j]
}

/// `frame` is the frame of `canvas` for an output of `cols` by `rows`
/// characters.
pub open spec fn is_frame_of(
    frame: Seq<u8>,
    canvas: Seq<bool>,
    palette: int,
    cols: int,
    rows: int,
) -> bool {
    &&& frame.len() == cols * rows
    &&& forall|i: int, j: int|
        0 <= i < rows && 0 <= j < cols ==> #[trigger] cell_at(frame, cols, i, j) == frame_cell(
            canvas,
            palette,
            cols,
            rows,
            i,
            j,
        )
}

/// A row holds at most as many lit pixels as it has pixels.
pub proof fn lemma_lit_in_row_bound(canvas: Seq<bool>, r: int, c0: int, w: nat)
    ensures
        lit_in_row(canvas, r, c0, w) <= w,
    decreases w,
{
    if w > 0 {
        lemma_lit_in_row_bound(canvas, r, c0, (w - 1) as nat);
    }
}

/// Block `i` of `blocks` equal blocks of whole size in `total` ends within
/// `total`.
pub proof fn lemma_block_fits(total: int, blocks: int, i: int)
    requires
        0 < blocks <= total,
        0 <= i < blocks,
    ensures
        total / blocks >= 1,
        0 <= i * (total / blocks),
        i * (total / blocks) + total / blocks <= total,
{
    let size = total / blocks;
    vstd::arithmetic::div_mod::lemma_fundamental_div_mod(total, blocks);
    vstd::arithmetic::div_mod::lemma_mod_bound(total, blocks);
    assert(size >= 1 && 0 <= i * size && i * size + size <= total) by (nonlinear_arith)
        requires
            total == blocks * size + total % blocks,
            0 <= total % blocks < blocks,
            0 < blocks <= total,
            0 <= i < blocks,
    ;
}

/// The place in a palette of `last + 1` characters that stands for `count`
/// out of `max`: `count * last / max`, rounded down.
pub fn place(count: usize, max: usize, last: usize) -> (i: usize)
    requires
        0 < max,
        count <= max,
        last <= 9,
    ensures
        i == count * last / (max as int),
        i <= last,
{
    assert(0 <= count * last <= 0xffff_ffff_ffff_ffff * 9) by (nonlinear_arith)
        requires
            0 <= count <= 0xffff_ffff_ffff_ffff,
            0 <= last <= 9,
    ;
    let wide: u128 = (count as u128) * (last as u128) / (max as u128);
    assert(wide <= last) by (nonlinear_arith)
        requires
            wide == (count * last) / (max as int),
            0 < max,
            0 <= count <= max,
            0 <= last,
    ;
    wide as usize
}

/// A canvas of pixels that shapes are drawn on, a palette that turns pixel
/// counts into characters, and the output that takes the finished frame.
pub struct TextRender<O: TextOutputter> {
    pub canvas: Vec<bool>,
    pub palette: i32,
    pub output: O,
    pub frame: Vec<u8>,
}

impl<O: TextOutputter> TextRender<O> {
    /// The canvas has its full size.
    pub open spec fn wf(self) -> bool {
        self.canvas@.len() == PIXELS
    }

    /// A renderer with a dark canvas and the first palette; the output is
    /// set up.
    pub fn new(output: O) -> (r: Self)
        ensures
            r.wf(),
            r.palette == 0,
            r.frame@.len() == 0,
            forall|k: int| 0 <= k < PIXELS ==> !#[trigger] r.canvas@[k],
            output.set_up(&r.output),
    {
        let mut canvas: Vec<bool> = Vec::new();
        let mut k: usize = 0;
        while k < PIXELS
            invariant
                0 <= k <= PIXELS,
                canvas@.len() == k,
                forall|j: int| 0 <= j < k ==> !#[trigger] canvas@[j],
            decreases PIXELS - k,
        {
            canvas.push(false);
            k = k + 1;
        }
        let mut obj = TextRender { canvas, palette: 0, output, frame: Vec::new() };
        obj.setup();
        obj
    }

    /// Sets up the output, as the output itself says what that is, and
    /// leaves canvas, palette and frame as they are.
    pub fn setup(&mut self)
        ensures
            old(self).output.set_up(&final(self).output),
            final(self).canvas == old(self).canvas,
            final(self).palette == old(self).palette,
            final(self).frame == old(self).frame,
    {
        self.output.setup();
    }

    /// Makes the whole canvas dark.
    pub fn clear(&mut self)
        requires
            old(self).wf(),
        ensures
            final(self).wf(),
            forall|k: int| 0 <= k < PIXELS ==> !#[trigger] final(self).canvas@[k],
            final(self).palette == old(self).palette,
            final(self).output == old(self).output,
            final(self).frame == old(self).frame,
    {
        let mut k: usize = 0;
        while k < PIXELS
            invariant
                0 <= k <= PIXELS,
                self.canvas@.len() == PIXELS,
                forall|j: int| 0 <= j < k ==> !#[trigger] self.canvas@[j],
                self.palette == old(self).palette,
                self.output == old(self).output,
                self.frame == old(self).frame,
            decreases PIXELS - k,
        {
            self.canvas[k] = false;
            k = k + 1;
        }
    }

    /// Chooses the palette; any number outside zero to two gives blanks.
    pub fn set_palette(&mut self, palette: i32)
        ensures
            final(self).palette == palette,
            final(self).canvas == old(self).canvas,
            final(self).output == old(self).output,
            final(self).frame == old(self).frame,
    {
        self.palette = palette;
    }

    /// The character for `count` lit pixels out of `max`.
    pub fn brightness(&self, count: usize, max: usize) -> (glyph: u8)
        requires
            0 < max,
            count <= max,
        ensures
            glyph == glyph_for(self.palette as int, count as int, max as int),
    {
        if self.palette == 0 {
            let pal: [u8; 10] = [32, 46, 44, 58, 59, 111, 79, 81, 35, 64];
            pal[place(count, max, 9)]
        } else if self.palette == 1 {
            let pal: [u8; 10] = [32, 32, 32, 32, 32, 46, 111, 79, 64, 64];
            pal[place(count, max, 9)]
        } else if self.palette == 2 {
            let pal: [u8; 3] = [32, 46, 58];
            pal[place(count, max, 2)]
        } else {
            assert(count * 0 / (max as int) == 0);
            32
        }
    }

    /// Lights the pixel in row `r`, column `c`, if it is on the canvas.
    fn draw_pixel(&mut self, r: i64, c: i64)
        requires
            old(self).wf(),
        ensures
            final(self).wf(),
            painted(old(self).canvas@, final(self).canvas@, dot(r as int, c as int)),
            final(self).palette == old(self).palette,
            final(self).output == old(self).output,
            final(self).frame == old(self).frame,
    {
        if r < 0 || c < 0 || r >= HEIGHT as i64 || c >= WIDTH as i64 {
            return ;
        }
        let k: usize = (r as usize) * WIDTH + (c as usize);
        self.canvas[k] = true;
        assert forall|row: int, col: int| on_canvas(row, col) implies #[trigger] at(
            self.canvas@,
            row,
            col,
        ) == (at(old(self).canvas@, row, col) || dot(r as int, c as int).contains((row, col))) by {
            if row != r || col != c {
                assert(row * WIDTH + col != k);
            }
        }
    }

    /// Lights one pixel, if it is on the canvas.
    pub fn draw_point(&mut self, point: Point)
        requires
            old(self).wf(),
        ensures
            final(self).wf(),
            painted(old(self).canvas@, final(self).canvas@, dot(point.0 as int, point.1 as int)),
            final(self).palette == old(self).palette,
            final(self).output == old(self).output,
            final(self).frame == old(self).frame,
    {
        self.draw_pixel(point.0 as i64, point.1 as i64);
    }

    /// Lights the block of three by three pixels around row `r`, column `c`,
    /// as far as it is on the canvas.
    fn draw_bold(&mut self, r: i64, c: i64)
        requires
            old(self).wf(),
            -0x100_0000_0000 <= r <= 0x100_0000_0000,
            -0x100_0000_0000 <= c <= 0x100_0000_0000,
        ensures
            final(self).wf(),
            painted(old(self).canvas@, final(self).canvas@, bold(r as int, c as int)),
            final(self).palette == old(self).palette,
            final(self).output == old(self).output,
            final(self).frame == old(self).frame,
    {
        let ghost pre = self.canvas@;
        let mut i: i64 = r - 1;
        proof {
            lemma_painted_nothing(pre);
            lemma_painted_same(
                pre,
                pre,
                Set::empty(),
                Set::new(|q: (int, int)| r - 1 <= q.0 < i && c - 1 <= q.1 <= c + 1),
            );
        }
        while i <= r + 1
            invariant
                r - 1 <= i <= r + 2,
                -0x100_0000_0000 <= r <= 0x100_0000_0000,
                -0x100_0000_0000 <= c <= 0x100_0000_0000,
                self.wf(),
                painted(
                    pre,
                    self.canvas@,
                    Set::new(|q: (int, int)| r - 1 <= q.0 < i && c - 1 <= q.1 <= c + 1),
                ),
                self.palette == old(self).palette,
                self.output == old(self).output,
                self.frame == old(self).frame,
            decreases r + 2 - i,
        {
            let ghost row_start = self.canvas@;
            let ghost done = Set::new(|q: (int, int)| r - 1 <= q.0 < i && c - 1 <= q.1 <= c + 1);
            self.draw_pixel(i, c - 1);
            let ghost one = self.canvas@;
            self.draw_pixel(i, c);
            let ghost two = self.canvas@;
            self.draw_pixel(i, c + 1);
            proof {
                lemma_painted_twice(row_start, one, two, dot(i as int, c - 1), dot(i as int, c as int));
                lemma_painted_twice(
                    row_start,
                    two,
                    self.canvas@,
                    dot(i as int, c - 1).union(dot(i as int, c as int)),
                    dot(i as int, c + 1),
                );
                let row = dot(i as int, c - 1).union(dot(i as int, c as int)).union(
                    dot(i as int, c + 1),
                );
                lemma_painted_twice(pre, row_start, self.canvas@, done, row);
                assert(done.union(row) =~= Set::new(
                    |q: (int, int)| r - 1 <= q.0 < i + 1 && c - 1 <= q.1 <= c + 1,
                ));
            }
            i = i + 1;
        }
        assert(Set::new(|q: (int, int)| r - 1 <= q.0 < i && c - 1 <= q.1 <= c + 1) =~= bold(
            r as int,
            c as int,
        ));
    }

    /// Lights a point and the eight pixels around it, as far as they are on
    /// the canvas.
    pub fn draw_bold_point(&mut self, point: Point)
        requires
            old(self).wf(),
        ensures
            final(self).wf(),
            painted(old(self).canvas@, final(self).canvas@, bold(point.0 as int, point.1 as int)),
            final(self).palette == old(self).palette,
            final(self).output == old(self).output,
            final(self).frame == old(self).frame,
    {
        self.draw_bold(point.0 as i64, point.1 as i64);
    }

    /// Draws a run of bold points by stepping along one coordinate and
    /// keeping the error of the other.
    fn draw_run(&mut self, r0: i64, c0: i64, n: i64, minor: i64, sign: i64, along_rows: bool)
        requires
            old(self).wf(),
            -0x1_0000_0000 <= r0 <= 0x1_0000_0000,
            -0x1_0000_0000 <= c0 <= 0x1_0000_0000,
            0 <= minor <= n <= 0x2_0000_0000,
            sign == 1 || sign == -1,
        ensures
            final(self).wf(),
            painted(
                old(self).canvas@,
                final(self).canvas@,
                (Stroke {
                    r0: r0 as int,
                    c0: c0 as int,
                    n: n as int,
                    minor: minor as int,
                    sign: sign as int,
                    along_rows,
                }).shape(),
            ),
            final(self).palette == old(self).palette,
            final(self).output == old(self).output,
            final(self).frame == old(self).frame,
    {
        let ghost pre = self.canvas@;
        let ghost s = Stroke {
            r0: r0 as int,
            c0: c0 as int,
            n: n as int,
            minor: minor as int,
            sign: sign as int,
            along_rows,
        };
        proof {
            lemma_painted_nothing(pre);
            lemma_stroke_grows(s, 0);
        }
        if n == 0 {
            self.draw_bold(r0, c0);
            proof {
                lemma_painted_twice(pre, pre, self.canvas@, s.upto(0), bold(r0 as int, c0 as int));
            }
            return ;
        }
        let mut d: i64 = 2 * minor - n;
        let mut m: i64 = 0;
        let mut k: i64 = 0;
        let ghost mut pk: int = 0;
        let ghost mut pn: int = 0;
        while k <= n
            invariant
                0 <= k <= n + 1,
                0 <= m <= k,
                0 < n <= 0x2_0000_0000,
                0 <= minor <= n,
                sign == 1 || sign == -1,
                -0x1_0000_0000 <= r0 <= 0x1_0000_0000,
                -0x1_0000_0000 <= c0 <= 0x1_0000_0000,
                s == (Stroke {
                    r0: r0 as int,
                    c0: c0 as int,
                    n: n as int,
                    minor: minor as int,
                    sign: sign as int,
                    along_rows,
                }),
                pk == minor * k,
                pn == n * m,
                0 <= d - 1 - 2 * minor + 2 * n < 2 * n,
                2 * pk + n - 1 == 2 * pn + (d - 1 - 2 * minor + 2 * n),
                self.wf(),
                painted(pre, self.canvas@, s.upto(k as int)),
                self.palette == old(self).palette,
                self.output == old(self).output,
                self.frame == old(self).frame,
            decreases n + 1 - k,
        {
            let ghost before = self.canvas@;
            proof {
                lemma_nearest(k as int, minor as int, n as int, m as int, d - 1 - 2 * minor + 2 * n);
                lemma_stroke_grows(s, k as int);
            }
            let off: i64 = if sign == 1 {
                m
            } else {
                -m
            };
            assert(off == sign * m) by (nonlinear_arith)
                requires
                    (sign == 1 && off == m) || (sign == -1 && off == -m),
            ;
            if along_rows {
                self.draw_bold(r0 + k, c0 + off);
            } else {
                self.draw_bold(r0 + off, c0 + k);
            }
            proof {
                lemma_painted_twice(
                    pre,
                    before,
                    self.canvas@,
                    s.upto(k as int),
                    bold(s.center(k as int).0, s.center(k as int).1),
                );
            }
            if d > 0 {
                m = m + 1;
                d = d - 2 * n;
                proof {
                    pn = pn + n;
                    assert(n * (m - 1) + n == n * m) by (nonlinear_arith);
                }
            }
            d = d + 2 * minor;
            proof {
                pk = pk + minor;
                assert(minor * k + minor == minor * (k + 1)) by (nonlinear_arith);
            }
            k = k + 1;
        }
    }

    /// Draws a line that differs by more in its rows than in its columns,
    /// from the end with the lower row.
    fn draw_line_low(&mut self, from_point: Point, to_point: Point)
        requires
            old(self).wf(),
            from_point.0 <= to_point.0,
            vstd::math::abs(to_point.1 - from_point.1) <= to_point.0 - from_point.0,
        ensures
            final(self).wf(),
            painted(
                old(self).canvas@,
                final(self).canvas@,
                (Stroke {
                    r0: from_point.0 as int,
                    c0: from_point.1 as int,
                    n: to_point.0 - from_point.0,
                    minor: vstd::math::abs(to_point.1 - from_point.1) as int,
                    sign: if to_point.1 >= from_point.1 {
                        1
                    } else {
                        -1
                    },
                    along_rows: true,
                }).shape(),
            ),
            final(self).palette == old(self).palette,
            final(self).output == old(self).output,
            final(self).frame == old(self).frame,
    {
        let (x0, y0, x1, y1) = (
            from_point.0 as i64,
            from_point.1 as i64,
            to_point.0 as i64,
            to_point.1 as i64,
        );
        let dx: i64 = x1 - x0;
        if y1 >= y0 {
            self.draw_run(x0, y0, dx, y1 - y0, 1, true);
        } else {
            self.draw_run(x0, y0, dx, y0 - y1, -1, true);
        }
    }

    /// Draws a line that differs by no less in its columns than in its
    /// rows, from the end with the lower column.
    fn draw_line_high(&mut self, from_point: Point, to_point: Point)
        requires
            old(self).wf(),
            from_point.1 <= to_point.1,
            vstd::math::abs(to_point.0 - from_point.0) <= to_point.1 - from_point.1,
        ensures
            final(self).wf(),
            painted(
                old(self).canvas@,
                final(self).canvas@,
                (Stroke {
                    r0: from_point.0 as int,
                    c0: from_point.1 as int,
                    n: to_point.1 - from_point.1,
                    minor: vstd::math::abs(to_point.0 - from_point.0) as int,
                    sign: if to_point.0 >= from_point.0 {
                        1
                    } else {
                        -1
                    },
                    along_rows: false,
                }).shape(),
            ),
            final(self).palette == old(self).palette,
            final(self).output == old(self).output,
            final(self).frame == old(self).frame,
    {
        let (x0, y0, x1, y1) = (
            from_point.0 as i64,
            from_point.1 as i64,
            to_point.0 as i64,
            to_point.1 as i64,
        );
        let dy: i64 = y1 - y0;
        if x1 >= x0 {
            self.draw_run(x0, y0, dy, x1 - x0, 1, false);
        } else {
            self.draw_run(x0, y0, dy, x0 - x1, -1, false);
        }
    }

    /// Draws the line from `a` to `b` as a run of bold points: one for every
    /// step along the coordinate that differs more, each as near to the
    /// straight line as a pixel can be.
    pub fn draw_line(&mut self, a: Point, b: Point)
        requires
            old(self).wf(),
        ensures
            final(self).wf(),
            painted(old(self).canvas@, final(self).canvas@, line(a, b).shape()),
            final(self).palette == old(self).palette,
            final(self).output == old(self).output,
            final(self).frame == old(self).frame,
    {
        let d0: i64 = b.0 as i64 - a.0 as i64;
        let d1: i64 = b.1 as i64 - a.1 as i64;
        let m0: i64 = if d0 >= 0 {
            d0
        } else {
            -d0
        };
        let m1: i64 = if d1 >= 0 {
            d1
        } else {
            -d1
        };
        if m1 < m0 || (d0 == 0 && d1 == 0) {
            if a.0 <= b.0 {
                self.draw_line_low(a, b);
            } else {
                self.draw_line_low(b, a);
            }
        } else {
            if a.1 <= b.1 {
                self.draw_line_high(a, b);
            } else {
                self.draw_line_high(b, a);
            }
        }
    }

    /// Lights the filled rectangle between two corners, as far as it is on
    /// the canvas.
    pub fn draw_rectangle(&mut self, from_point: Point, to_point: Point)
        requires
            old(self).wf(),
        ensures
            final(self).wf(),
            painted(old(self).canvas@, final(self).canvas@, rectangle(from_point, to_point)),
            final(self).palette == old(self).palette,
            final(self).output == old(self).output,
            final(self).frame == old(self).frame,
    {
        let ghost pre = self.canvas@;
        let min_x: i64 = if from_point.0 <= to_point.0 {
            from_point.0 as i64
        } else {
            to_point.0 as i64
        };
        let max_x: i64 = if from_point.0 <= to_point.0 {
            to_point.0 as i64
        } else {
            from_point.0 as i64
        };
        let min_y: i64 = if from_point.1 <= to_point.1 {
            from_point.1 as i64
        } else {
            to_point.1 as i64
        };
        let max_y: i64 = if from_point.1 <= to_point.1 {
            to_point.1 as i64
        } else {
            from_point.1 as i64
        };
        let first_row: i64 = if min_x < 0 {
            0
        } else {
            min_x
        };
        let last_row: i64 = if max_x >= HEIGHT as i64 {
            HEIGHT as i64 - 1
        } else {
            max_x
        };
        let first_col: i64 = if min_y < 0 {
            0
        } else {
            min_y
        };
        let last_col: i64 = if max_y >= WIDTH as i64 {
            WIDTH as i64 - 1
        } else {
            max_y
        };
        let mut x: i64 = first_row;
        proof {
            lemma_painted_nothing(pre);
            lemma_painted_same(
                pre,
                pre,
                Set::empty(),
                Set::new(
                    |q: (int, int)|
                        first_row <= q.0 < x && first_col <= q.1 <= last_col,
                ),
            );
        }
        while x <= last_row
            invariant
                0 <= first_row <= x,
                x <= last_row + 1 || x == first_row,
                last_row < HEIGHT,
                0 <= first_col,
                last_col < WIDTH,
                self.wf(),
                painted(
                    pre,
                    self.canvas@,
                    Set::new(|q: (int, int)| first_row <= q.0 < x && first_col <= q.1 <= last_col),
                ),
                self.palette == old(self).palette,
                self.output == old(self).output,
                self.frame == old(self).frame,
            decreases last_row + 1 - x,
        {
            let ghost rows_done = Set::new(
                |q: (int, int)| first_row <= q.0 < x && first_col <= q.1 <= last_col,
            );
            let mut y: i64 = first_col;
            proof {
                lemma_painted_same(
                    pre,
                    self.canvas@,
                    rows_done,
                    rows_done.union(Set::new(|q: (int, int)| q.0 == x && first_col <= q.1 < y)),
                );
            }
            while y <= last_col
                invariant
                    0 <= first_row <= x <= last_row < HEIGHT,
                    0 <= first_col <= y,
                    y <= last_col + 1 || y == first_col,
                    last_col < WIDTH,
                    rows_done == Set::new(
                        |q: (int, int)| first_row <= q.0 < x && first_col <= q.1 <= last_col,
                    ),
                    self.wf(),
                    painted(
                        pre,
                        self.canvas@,
                        rows_done.union(Set::new(|q: (int, int)| q.0 == x && first_col <= q.1 < y)),
                    ),
                    self.palette == old(self).palette,
                    self.output == old(self).output,
                    self.frame == old(self).frame,
                decreases last_col + 1 - y,
            {
                let ghost before = self.canvas@;
                let ghost so_far = rows_done.union(
                    Set::new(|q: (int, int)| q.0 == x && first_col <= q.1 < y),
                );
                self.draw_pixel(x, y);
                proof {
                    lemma_painted_twice(pre, before, self.canvas@, so_far, dot(x as int, y as int));
                    assert(so_far.union(dot(x as int, y as int)) =~= rows_done.union(
                        Set::new(|q: (int, int)| q.0 == x && first_col <= q.1 < y + 1),
                    ));
                }
                y = y + 1;
            }
            proof {
                lemma_painted_same(
                    pre,
                    self.canvas@,
                    rows_done.union(Set::new(|q: (int, int)| q.0 == x && first_col <= q.1 < y)),
                    Set::new(
                        |q: (int, int)| first_row <= q.0 < x + 1 && first_col <= q.1 <= last_col,
                    ),
                );
            }
            x = x + 1;
        }
        proof {
            lemma_painted_same(
                pre,
                self.canvas@,
                Set::new(|q: (int, int)| first_row <= q.0 < x && first_col <= q.1 <= last_col),
                rectangle(from_point, to_point),
            );
        }
    }

    /// Number of lit pixels in the block of `h` rows from row `r0` on and
    /// `w` columns from column `c0` on.
    pub fn count_block(&self, r0: usize, c0: usize, h: usize, w: usize) -> (count: usize)
        requires
            self.wf(),
            r0 + h <= HEIGHT,
            c0 + w <= WIDTH,
        ensures
            count == lit_in_block(self.canvas@, r0 as int, c0 as int, h as nat, w as nat),
            count <= h * w,
    {
        let mut count: usize = 0;
        let mut k: usize = 0;
        while k < h
            invariant
                self.wf(),
                0 <= k <= h,
                r0 + h <= HEIGHT,
                c0 + w <= WIDTH,
                count == lit_in_block(self.canvas@, r0 as int, c0 as int, k as nat, w as nat),
                count <= k * w,
                k * w <= PIXELS,
            decreases h - k,
        {
            let mut l: usize = 0;
            let ghost above = count;
            while l < w
                invariant
                    self.wf(),
                    0 <= l <= w,
                    k < h,
                    r0 + h <= HEIGHT,
                    c0 + w <= WIDTH,
                    count == above + lit_in_row(self.canvas@, r0 + k, c0 as int, l as nat),
                    above <= PIXELS,
                    count <= above + l,
                decreases w - l,
            {
                if self.canvas[(r0 + k) * WIDTH + (c0 + l)] {
                    count = count + 1;
                }
                l = l + 1;
            }
            assert((k + 1) * w == k * w + w && (k + 1) * w <= PIXELS) by (nonlinear_arith)
                requires
                    k + 1 <= HEIGHT,
                    w <= WIDTH,
                    0 <= k,
                    0 <= w,
            ;
            k = k + 1;
        }
        count
    }

    /// Row `i` of the frame for an output of `cols` by `rows` characters.
    pub fn frame_row(&self, cols: usize, rows: usize, i: usize) -> (row: Vec<u8>)
        requires
            self.wf(),
            1 <= cols <= WIDTH,
            1 <= rows <= HEIGHT,
            i < rows,
        ensures
            row@.len() == cols,
            forall|j: int|
                0 <= j < cols ==> #[trigger] row@[j] == frame_cell(
                    self.canvas@,
                    self.palette as int,
                    cols as int,
                    rows as int,
                    i as int,
                    j,
                ),
    {
        let block_w: usize = WIDTH / cols;
        let block_h: usize = HEIGHT / rows;
        proof {
            lemma_block_fits(HEIGHT as int, rows as int, i as int);
        }
        let mut row: Vec<u8> = Vec::new();
        let mut j: usize = 0;
        while j < cols
            invariant
                self.wf(),
                1 <= cols <= WIDTH,
                1 <= rows <= HEIGHT,
                i < rows,
                block_w == WIDTH as int / (cols as int),
                block_h == HEIGHT as int / (rows as int),
                block_h >= 1,
                0 <= i * block_h,
                i * block_h + block_h <= HEIGHT,
                0 <= j <= cols,
                row@.len() == j,
                forall|b: int|
                    0 <= b < j ==> #[trigger] row@[b] == frame_cell(
                        self.canvas@,
                        self.palette as int,
                        cols as int,
                        rows as int,
                        i as int,
                        b,
                    ),
            decreases cols - j,
        {
            let glyph: u8 = if i == rows - 1 && j == cols - 1 {
                0
            } else if j == cols - 1 {
                10
            } else if j == 0 || i == 0 || i == rows - 1 {
                35
            } else {
                proof {
                    lemma_block_fits(WIDTH as int, cols as int, j as int);
                    assert(1 <= block_h * block_w <= PIXELS) by (nonlinear_arith)
                        requires
                            1 <= block_h <= HEIGHT,
                            1 <= block_w <= WIDTH,
                    ;
                }
                let count = self.count_block(i * block_h, j * block_w, block_h, block_w);
                self.brightness(count, block_h * block_w)
            };
            row.push(glyph);
            j = j + 1;
        }
        row
    }

    /// Turns the canvas into a frame of characters for the output's size
    /// and hands it to the output. The frame is kept in `frame`.
    pub fn draw(&mut self)
        requires
            old(self).wf(),
            1 <= old(self).output.cols() <= WIDTH,
            1 <= old(self).output.rows() <= HEIGHT,
        ensures
            final(self).wf(),
            final(self).canvas == old(self).canvas,
            final(self).palette == old(self).palette,
            final(self).output.cols() == old(self).output.cols(),
            final(self).output.rows() == old(self).output.rows(),
            is_frame_of(
                final(self).frame@,
                old(self).canvas@,
                old(self).palette as int,
                old(self).output.cols() as int,
                old(self).output.rows() as int,
            ),
            final(self).output.shown() == final(self).frame@,
    {
        let cols = self.output.width();
        let rows = self.output.height();
        let mut frame: Vec<u8> = Vec::new();
        let mut i: usize = 0;
        while i < rows
            invariant
                *self == *old(self),
                self.wf(),
                1 <= cols <= WIDTH,
                1 <= rows <= HEIGHT,
                0 <= i <= rows,
                frame@.len() == i * cols,
                forall|a: int, b: int|
                    0 <= a < i && 0 <= b < cols ==> #[trigger] cell_at(frame@, cols as int, a, b)
                        == frame_cell(
                        self.canvas@,
                        self.palette as int,
                        cols as int,
                        rows as int,
                        a,
                        b,
                    ),
            decreases rows - i,
        {
            let mut row = self.frame_row(cols, rows, i);
            let ghost before = frame@;
            let ghost added = row@;
            frame.append(&mut row);
            proof {
                assert((i + 1) * cols == i * cols + cols) by (nonlinear_arith);
                assert forall|a: int, b: int| 0 <= a < i + 1 && 0 <= b < cols implies #[trigger] cell_at(
                    frame@,
                    cols as int,
                    a,
                    b,
                ) == frame_cell(self.canvas@, self.palette as int, cols as int, rows as int, a, b) by {
                    if a < i {
                        assert(a * cols + b < i * cols) by (nonlinear_arith)
                            requires
                                0 <= a < i,
                                0 <= b < cols,
                        ;
                        assert(cell_at(before, cols as int, a, b) == frame@[a * cols + b]);
                    } else {
                        assert(frame@[i * cols + b] == added[b]);
                    }
                }
            }
            i = i + 1;
        }
        assert(i * cols == cols * rows) by (nonlinear_arith)
            requires
                i == rows,
        ;
        self.frame = frame;
        self.output.write(self.frame.as_slice());
    }
}

/// A canvas is itself with nothing painted.
pub proof fn lemma_painted_nothing(a: Seq<bool>)
    requires
        a.len() == PIXELS,
    ensures
        painted(a, a, Set::empty()),
{
}

} // verus!
