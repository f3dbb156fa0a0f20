//! The diagnostic sink: a verified text renderer over an owned
//! framebuffer. The loader passes the sink explicitly instead of going
//! through a process-wide mutable global; the caller owns the real
//! framebuffer memory and blits the rendered bytes.

use vstd::prelude::*;

verus! {

/// Describes the layout and pixel format of a framebuffer.
#[derive(Debug, Clone, Copy, PartialEq, Eq, Structural)]
pub struct FrameBufferInfo {
    /// The width in pixels.
    pub horizontal_resolution: usize,
    /// The height in pixels.
    pub vertical_resolution: usize,
    /// The color format of each pixel.
    pub pixel_format: PixelFormat,
    /// The number of bytes each pixel occupies in the buffer.
    pub bits_per_pixel: usize,
    /// Number of pixels between the start of a line and the start of
    /// the next. Some framebuffers pad lines, so this may exceed
    /// `horizontal_resolution`.
    pub stride: usize,
}

/// Color format of pixels in the framebuffer.
#[derive(Debug, Clone, Copy, PartialEq, Eq, Structural)]
pub enum PixelFormat {
    /// One byte red, then one byte green, then one byte blue.
    RGB,
    /// One byte blue, then one byte green, then one byte red.
    BGR,
}

/// A framebuffer description the renderer can work against.
pub open spec fn info_wf(info: FrameBufferInfo) -> bool {
    &&& 1 <= info.bits_per_pixel <= 4
    &&& 8 <= info.horizontal_resolution
    &&& 16 <= info.vertical_resolution
    &&& info.horizontal_resolution <= info.stride
}

/// The bytes one written pixel carries, by format and intensity.
pub open spec fn pixel_color(format: PixelFormat, intensity: u8) -> Seq<u8> {
    match format {
        PixelFormat::RGB => seq![intensity, intensity, (intensity / 2) as u8, 0u8],
        PixelFormat::BGR => seq![(intensity / 2) as u8, intensity, intensity, 0u8],
    }
}

/// First buffer byte of the pixel at `(x, y)`.
pub open spec fn pixel_index(info: FrameBufferInfo, x: int, y: int) -> int {
    (y * info.stride + x) * info.bits_per_pixel
}

/// Buffer byte `j` of the pixel at `(x, y)`.
pub open spec fn pixel_byte(info: FrameBufferInfo, x: int, y: int, j: int) -> int {
    pixel_index(info, x, y) + j
}

/// The intensity a glyph row byte gives to column `dx`.
pub open spec fn glyph_intensity(row: u8, dx: int) -> u8 {
    if (row >> (dx as u8)) & 1 == 0 {
        0
    } else {
        255
    }
}

/// Whether buffer byte `k` belongs to the 8x8 pixel block at `(x, y)`.
pub open spec fn in_glyph_block(info: FrameBufferInfo, x: int, y: int, k: int) -> bool {
    exists|dx: int, dy: int|
        0 <= dx < 8 && 0 <= dy < 8 && #[trigger] pixel_index(info, x + dx, y + dy) <= k
            < pixel_index(info, x + dx, y + dy) + info.bits_per_pixel
}

/// Renders text into an owned framebuffer, tracking the cursor position.
pub struct Logger {
    framebuffer: Vec<u8>,
    info: FrameBufferInfo,
    x_pos: usize,
    y_pos: usize,
    scroll_lock: bool,
}

impl Logger {
    /// The rendered bytes.
    pub closed spec fn buffer(self) -> Seq<u8> {
        self.framebuffer@
    }

    /// The framebuffer description.
    pub closed spec fn info_spec(self) -> FrameBufferInfo {
        self.info
    }

    /// Cursor column in pixels.
    pub closed spec fn x(self) -> int {
        self.x_pos as int
    }

    /// Cursor row in pixels.
    pub closed spec fn y(self) -> int {
        self.y_pos as int
    }

    /// Whether the cursor is held on its current line.
    pub closed spec fn lock(self) -> bool {
        self.scroll_lock
    }

    /// The renderer's invariant: a workable description and a buffer of
    /// exactly one byte per pixel cell.
    pub closed spec fn wf(self) -> bool {
        &&& info_wf(self.info)
        &&& self.framebuffer@.len() == self.info.stride * self.info.vertical_resolution
            * self.info.bits_per_pixel
    }

    /// Creates a renderer over the given buffer.
    pub fn new(framebuffer: Vec<u8>, info: FrameBufferInfo) -> (r: Logger)
        requires
            info_wf(info),
            framebuffer@.len() == info.stride * info.vertical_resolution * info.bits_per_pixel,
        ensures
            r.wf(),
            r.buffer() == framebuffer@,
            r.info_spec() == info,
            r.x() == 0,
            r.y() == 0,
            r.lock() == false,
    {
        Logger { framebuffer, info, x_pos: 0, y_pos: 0, scroll_lock: false }
    }

    /// The rendered framebuffer bytes.
    pub fn buffer_bytes(&self) -> (r: &Vec<u8>)
        ensures
            r@ == self.buffer(),
    {
        &self.framebuffer
    }

    /// The cursor column in pixels.
    pub fn cursor_x(&self) -> (r: usize)
        ensures
            r == self.x(),
    {
        self.x_pos
    }

    /// The cursor row in pixels.
    pub fn cursor_y(&self) -> (r: usize)
        ensures
            r == self.y(),
    {
        self.y_pos
    }

    /// The width in pixels.
    pub fn width(&self) -> (r: usize)
        ensures
            r == self.info_spec().horizontal_resolution,
    {
        self.info.horizontal_resolution
    }

    /// The height in pixels.
    pub fn height(&self) -> (r: usize)
        ensures
            r == self.info_spec().vertical_resolution,
    {
        self.info.vertical_resolution
    }

    /// Moves the cursor back to the start of the line.
    pub fn carriage_return(&mut self)
        ensures
            final(self).x() == 0,
            final(self).y() == old(self).y(),
            final(self).buffer() == old(self).buffer(),
            final(self).info_spec() == old(self).info_spec(),
            final(self).lock() == old(self).lock(),
            old(self).wf() ==> final(self).wf(),
    {
        self.x_pos = 0;
    }

    /// Starts a new line: advances one text row unless the cursor is
    /// held, and returns to the start of the line.
    pub fn new_line(&mut self)
        requires
            old(self).y() + 16 <= usize::MAX,
        ensures
            final(self).x() == 0,
            final(self).y() == (if old(self).lock() {
                old(self).y()
            } else {
                old(self).y() + 16
            }),
            final(self).buffer() == old(self).buffer(),
            final(self).info_spec() == old(self).info_spec(),
            final(self).lock() == old(self).lock(),
            old(self).wf() ==> final(self).wf(),
    {
        if !self.scroll_lock {
            self.y_pos += 16;
        }
        self.carriage_return();
    }

    /// Holds or releases the cursor's line.
    pub fn set_scroll_lock(&mut self, lock: bool)
        ensures
            final(self).lock() == lock,
            final(self).x() == old(self).x(),
            final(self).y() == old(self).y(),
            final(self).buffer() == old(self).buffer(),
            final(self).info_spec() == old(self).info_spec(),
            old(self).wf() ==> final(self).wf(),
    {
        self.scroll_lock = lock;
    }

    /// Blanks the framebuffer and homes the cursor.
    pub fn clear(&mut self)
        requires
            old(self).wf(),
        ensures
            final(self).wf(),
            final(self).x() == 0,
            final(self).y() == 0,
            final(self).lock() == old(self).lock(),
            final(self).info_spec() == old(self).info_spec(),
            final(self).buffer().len() == old(self).buffer().len(),
            forall|k: int| 0 <= k < final(self).buffer().len() ==> final(self).buffer()[k] == 0u8,
    {
        self.x_pos = 0;
        self.y_pos = 0;
        let n = self.framebuffer.len();
        let mut i: usize = 0;
        while i < n
            invariant
                self.framebuffer@.len() == n,
                i <= n,
                self.info == old(self).info,
                self.x_pos == 0,
                self.y_pos == 0,
                self.scroll_lock == old(self).scroll_lock,
                forall|k: int| 0 <= k < i ==> self.framebuffer@[k] == 0u8,
            decreases n - i,
        {
            self.framebuffer[i] = 0;
            i += 1;
        }
    }

    /// Writes one pixel with the given intensity.
    fn write_pixel(&mut self, x: usize, y: usize, intensity: u8)
        requires
            old(self).wf(),
            x < old(self).info_spec().stride,
            y < old(self).info_spec().vertical_resolution,
        ensures
            final(self).wf(),
            final(self).info_spec() == old(self).info_spec(),
            final(self).x() == old(self).x(),
            final(self).y() == old(self).y(),
            final(self).lock() == old(self).lock(),
            final(self).buffer().len() == old(self).buffer().len(),
            forall|j: int|
                0 <= j < old(self).info_spec().bits_per_pixel ==> final(self).buffer()[
                #[trigger] pixel_byte(old(self).info_spec(), x as int, y as int, j)] == pixel_color(
                    old(self).info_spec().pixel_format,
                    intensity,
                )[j],
            forall|k: int|
                0 <= k < old(self).buffer().len() && !(pixel_index(
                    old(self).info_spec(),
                    x as int,
                    y as int,
                ) <= k < pixel_index(old(self).info_spec(), x as int, y as int) + old(
                    self,
                ).info_spec().bits_per_pixel) ==> final(self).buffer()[k] == old(self).buffer()[k],
    {
        let info = self.info;
        let buffer_len = self.framebuffer.len();
        proof {
            assert(y * info.stride + x < info.stride * info.vertical_resolution)
                by (nonlinear_arith)
                requires
                    x < info.stride,
                    y < info.vertical_resolution,
            ;
            assert((y * info.stride + x) * info.bits_per_pixel + info.bits_per_pixel <= (
            info.stride * info.vertical_resolution) * info.bits_per_pixel) by (nonlinear_arith)
                requires
                    y * info.stride + x < info.stride * info.vertical_resolution,
                    info.bits_per_pixel >= 1,
            ;
            assert(info.stride * info.vertical_resolution * info.bits_per_pixel == (info.stride
                * info.vertical_resolution) * info.bits_per_pixel) by (nonlinear_arith);
            assert(info.stride * info.vertical_resolution <= info.stride
                * info.vertical_resolution * info.bits_per_pixel) by (nonlinear_arith)
                requires
                    info.bits_per_pixel >= 1,
            ;
        }
        let pixel_offset = y * self.info.stride + x;
        let byte_offset = pixel_offset * self.info.bits_per_pixel;
        let bpp = self.info.bits_per_pixel;
        let half = intensity / 2;
        let c0: u8;
        let c1: u8;
        let c2: u8;
        match self.info.pixel_format {
            PixelFormat::RGB => {
                c0 = intensity;
                c1 = intensity;
                c2 = half;
            },
            PixelFormat::BGR => {
                c0 = half;
                c1 = intensity;
                c2 = intensity;
            },
        }
        self.framebuffer[byte_offset] = c0;
        if bpp >= 2 {
            self.framebuffer[byte_offset + 1] = c1;
        }
        if bpp >= 3 {
            self.framebuffer[byte_offset + 2] = c2;
        }
        if bpp >= 4 {
            self.framebuffer[byte_offset + 3] = 0;
        }
    }

    /// Paints one rendered 8x8 glyph at the cursor and advances it one
    /// character cell.
    pub fn write_rendered_char(&mut self, rendered: [u8; 8])
        requires
            old(self).wf(),
            old(self).x() + 8 <= old(self).info_spec().horizontal_resolution,
            old(self).y() + 8 <= old(self).info_spec().vertical_resolution,
        ensures
            final(self).wf(),
            final(self).info_spec() == old(self).info_spec(),
            final(self).x() == old(self).x() + 8,
            final(self).y() == old(self).y(),
            final(self).lock() == old(self).lock(),
            final(self).buffer().len() == old(self).buffer().len(),
            forall|dx: int, dy: int, j: int|
                0 <= dx < 8 && 0 <= dy < 8 && 0 <= j < old(self).info_spec().bits_per_pixel
                    ==> final(self).buffer()[#[trigger] pixel_byte(
                    old(self).info_spec(),
                    old(self).x() + dx,
                    old(self).y() + dy,
                    j,
                )] == pixel_color(
                    old(self).info_spec().pixel_format,
                    glyph_intensity(rendered@[dy], dx),
                )[j],
            forall|k: int|
                0 <= k < old(self).buffer().len() && !in_glyph_block(
                    old(self).info_spec(),
                    old(self).x(),
                    old(self).y(),
                    k,
                ) ==> final(self).buffer()[k] == old(self).buffer()[k],
    {
        let ghost info = self.info;
        let ghost x0 = self.x_pos as int;
        let ghost y0 = self.y_pos as int;
        let ghost buf0 = self.framebuffer@;
        let mut dy: usize = 0;
        #[verifier::loop_isolation(false)]
        while dy < 8
            invariant
                self.wf(),
                dy <= 8,
                self.info == info,
                self.x_pos as int == x0,
                self.y_pos as int == y0,
                self.scroll_lock == old(self).scroll_lock,
                self.framebuffer@.len() == buf0.len(),
                forall|dx: int, d2: int, j: int|
                    0 <= dx < 8 && 0 <= d2 < dy && 0 <= j < info.bits_per_pixel
                        ==> self.framebuffer@[#[trigger] pixel_byte(info, x0 + dx, y0 + d2, j)]
                        == pixel_color(info.pixel_format, glyph_intensity(rendered@[d2], dx))[j],
                forall|k: int|
                    0 <= k < buf0.len() && !in_glyph_block(info, x0, y0, k)
                        ==> self.framebuffer@[k] == buf0[k],
            decreases 8 - dy,
        {
            let row = rendered[dy];
            let mut dx: usize = 0;
            #[verifier::loop_isolation(false)]
            while dx < 8
                invariant
                    self.wf(),
                    dy < 8,
                    dx <= 8,
                    self.info == info,
                    self.x_pos as int == x0,
                    self.y_pos as int == y0,
                    self.scroll_lock == old(self).scroll_lock,
                    self.framebuffer@.len() == buf0.len(),
                    row == rendered@[dy as int],
                    forall|d1: int, d2: int, j: int|
                        0 <= d1 < 8 && 0 <= d2 < dy && 0 <= j < info.bits_per_pixel
                            ==> self.framebuffer@[#[trigger] pixel_byte(info, x0 + d1, y0 + d2, j)]
                            == pixel_color(
                            info.pixel_format,
                            glyph_intensity(rendered@[d2], d1),
                        )[j],
                    forall|d1: int, j: int|
                        0 <= d1 < dx && 0 <= j < info.bits_per_pixel ==> self.framebuffer@[
                        #[trigger] pixel_byte(info, x0 + d1, y0 + dy as int, j)] == pixel_color(
                            info.pixel_format,
                            glyph_intensity(rendered@[dy as int], d1),
                        )[j],
                    forall|k: int|
                        0 <= k < buf0.len() && !in_glyph_block(info, x0, y0, k)
                            ==> self.framebuffer@[k] == buf0[k],
                decreases 8 - dx,
            {
                let alpha: u8 = if (row >> (dx as u8)) & 1 == 0 {
                    0
                } else {
                    255
                };
                proof {
                    assert(alpha == glyph_intensity(rendered@[dy as int], dx as int));
                }
                let ghost buf_prev = self.framebuffer@;
                self.write_pixel(self.x_pos + dx, self.y_pos + dy, alpha);
                proof {
                    let px = pixel_index(info, x0 + dx, y0 + dy);
                    assert forall|k: int|
                        0 <= k < buf0.len() && !in_glyph_block(info, x0, y0, k) implies
                        self.framebuffer@[k] == buf0[k] by {
                        assert(!(px <= k < px + info.bits_per_pixel)) by {
                            if px <= k < px + info.bits_per_pixel {
                                assert(in_glyph_block(info, x0, y0, k));
                            }
                        }
                    }
                    assert forall|d1: int, d2: int, j: int|
                        0 <= d1 < 8 && 0 <= d2 < dy && 0 <= j < info.bits_per_pixel implies
                        self.framebuffer@[#[trigger] pixel_byte(info, x0 + d1, y0 + d2, j)]
                            == pixel_color(
                            info.pixel_format,
                            glyph_intensity(rendered@[d2], d1),
                        )[j] by {
                        lemma_pixel_in_bounds(info, x0 + d1, y0 + d2, j, buf0.len() as int);
                        lemma_pixel_index_disjoint(info, x0 + d1, y0 + d2, x0 + dx as int, y0
                            + dy as int);
                        assert(buf_prev[pixel_byte(info, x0 + d1, y0 + d2, j)] == pixel_color(
                            info.pixel_format,
                            glyph_intensity(rendered@[d2], d1),
                        )[j]);
                    }
                    assert forall|d1: int, j: int|
                        0 <= d1 < dx + 1 && 0 <= j < info.bits_per_pixel implies self.framebuffer@[
                        #[trigger] pixel_byte(info, x0 + d1, y0 + dy as int, j)] == pixel_color(
                            info.pixel_format,
                            glyph_intensity(rendered@[dy as int], d1),
                        )[j] by {
                        lemma_pixel_in_bounds(info, x0 + d1, y0 + dy as int, j, buf0.len() as int);
                        if d1 < dx {
                            lemma_pixel_index_disjoint(info, x0 + d1, y0 + dy as int, x0
                                + dx as int, y0 + dy as int);
                            assert(buf_prev[pixel_byte(info, x0 + d1, y0 + dy as int, j)]
                                == pixel_color(
                                info.pixel_format,
                                glyph_intensity(rendered@[dy as int], d1),
                            )[j]);
                        } else {
                            assert(self.framebuffer@[pixel_byte(info, x0 + dx as int, y0
                                + dy as int, j)] == pixel_color(info.pixel_format, alpha)[j]);
                        }
                    }
                }
                dx += 1;
            }
            dy += 1;
        }
        self.x_pos += 8;
    }

    /// Writes one character: newline and carriage return move the
    /// cursor, anything else paints its glyph at the cursor, wrapping
    /// the line and blanking the screen as needed.
    pub fn write_char(&mut self, c: char)
        requires
            old(self).wf(),
            (c as nat) < 128,
            old(self).x() + 8 <= usize::MAX,
            old(self).y() + 32 <= usize::MAX,
        ensures
            final(self).wf(),
            final(self).info_spec() == old(self).info_spec(),
            final(self).lock() == old(self).lock(),
            c == '\n' ==> final(self).x() == 0 && final(self).buffer() == old(self).buffer()
                && final(self).y() == (if old(self).lock() {
                old(self).y()
            } else {
                old(self).y() + 16
            }),
            c == '\r' ==> final(self).x() == 0 && final(self).y() == old(self).y()
                && final(self).buffer() == old(self).buffer(),
            (c != '\n' && c != '\r') ==> {
                &&& final(self).x() >= 8
                &&& final(self).x() <= old(self).info_spec().horizontal_resolution
                &&& final(self).y() + 8 <= old(self).info_spec().vertical_resolution
                &&& forall|dx: int, dy: int, j: int|
                    0 <= dx < 8 && 0 <= dy < 8 && 0 <= j < old(self).info_spec().bits_per_pixel
                        ==> final(self).buffer()[#[trigger] pixel_byte(
                        old(self).info_spec(),
                        final(self).x() - 8 + dx,
                        final(self).y() + dy,
                        j,
                    )] == pixel_color(
                        old(self).info_spec().pixel_format,
                        glyph_intensity(glyph_of(c)[dy], dx),
                    )[j]
            },
    {
        if c == '\n' {
            self.new_line();
        } else if c == '\r' {
            self.carriage_return();
        } else {
            if self.x_pos + 8 > self.width() {
                self.new_line();
            }
            if self.y_pos + 16 > self.height() {
                self.clear();
            }
            let rendered = match basic_glyph(c) {
                Some(r) => r,
                None => {
                    proof {
                        assert(false);
                    }
                    return ;
                },
            };
            self.write_rendered_char(rendered);
        }
    }
}

/// A pixel byte of an in-range pixel lies inside the buffer.
proof fn lemma_pixel_in_bounds(info: FrameBufferInfo, x: int, y: int, j: int, len: int)
    requires
        info_wf(info),
        0 <= x < info.stride,
        0 <= y < info.vertical_resolution,
        0 <= j < info.bits_per_pixel,
        len == info.stride * info.vertical_resolution * info.bits_per_pixel,
    ensures
        0 <= pixel_index(info, x, y),
        pixel_index(info, x, y) + info.bits_per_pixel <= len,
        0 <= pixel_byte(info, x, y, j) < len,
{
    assert(0 <= (y * info.stride + x) * info.bits_per_pixel && (y * info.stride + x)
        * info.bits_per_pixel + info.bits_per_pixel <= info.stride * info.vertical_resolution
        * info.bits_per_pixel) by (nonlinear_arith)
        requires
            0 <= x < info.stride,
            0 <= y < info.vertical_resolution,
            info.bits_per_pixel >= 1,
    ;
}

/// Two distinct pixels occupy disjoint byte ranges.
proof fn lemma_pixel_index_disjoint(info: FrameBufferInfo, x1: int, y1: int, x2: int, y2: int)
    requires
        info_wf(info),
        0 <= x1 < info.stride,
        0 <= x2 < info.stride,
        0 <= y1,
        0 <= y2,
        !(x1 == x2 && y1 == y2),
    ensures
        pixel_index(info, x1, y1) + info.bits_per_pixel <= pixel_index(info, x2, y2)
            || pixel_index(info, x2, y2) + info.bits_per_pixel <= pixel_index(info, x1, y1),
{
    assert((y1 * info.stride + x1) != (y2 * info.stride + x2)) by (nonlinear_arith)
        requires
            0 <= x1 < info.stride,
            0 <= x2 < info.stride,
            0 <= y1,
            0 <= y2,
            !(x1 == x2 && y1 == y2),
    ;
    assert((y1 * info.stride + x1) < (y2 * info.stride + x2) ==> (y1 * info.stride + x1)
        * info.bits_per_pixel + info.bits_per_pixel <= (y2 * info.stride + x2)
        * info.bits_per_pixel) by (nonlinear_arith)
        requires
            info.bits_per_pixel >= 1,
    ;
    assert((y2 * info.stride + x2) < (y1 * info.stride + x1) ==> (y2 * info.stride + x2)
        * info.bits_per_pixel + info.bits_per_pixel <= (y1 * info.stride + x1)
        * info.bits_per_pixel) by (nonlinear_arith)
        requires
            info.bits_per_pixel >= 1,
    ;
}

/// The pixel rows of the built-in 8x8 glyph for `c`: fixed font data, a
/// function of the character alone.
pub uninterp spec fn glyph_of(c: char) -> Seq<u8>;

/// Relies on `font8x8::BASIC_FONTS.get` (the `UnicodeFonts`
/// implementation of the basic Latin block): a glyph exists exactly for
/// the 128 basic characters, eight row bytes each.
#[verifier::external_body]
fn basic_glyph(c: char) -> (r: Option<[u8; 8]>)
    ensures
        r is Some <==> (c as nat) < 128,
        r matches Some(g) ==> g@ == glyph_of(c) && glyph_of(c).len() == 8,
{
    font8x8::UnicodeFonts::get(&font8x8::BASIC_FONTS, c)
}

/// Builds the diagnostic sink over the given buffer. The loader
/// initializes it once and threads it through as a parameter.
pub fn init(framebuffer: Vec<u8>, info: FrameBufferInfo) -> (r: Logger)
    requires
        info_wf(info),
        framebuffer@.len() == info.stride * info.vertical_resolution * info.bits_per_pixel,
    ensures
        r.wf(),
        r.buffer() == framebuffer@,
        r.info_spec() == info,
        r.x() == 0,
        r.y() == 0,
        r.lock() == false,
{
    Logger::new(framebuffer, info)
}

/// Blanks the screen of the given sink.
pub fn clear(logger: &mut Logger)
    requires
        old(logger).wf(),
    ensures
        final(logger).wf(),
        final(logger).x() == 0,
        final(logger).y() == 0,
        forall|k: int|
            0 <= k < final(logger).buffer().len() ==> final(logger).buffer()[k] == 0u8,
{
    logger.clear();
}

/// Holds or releases the cursor's line on the given sink.
pub fn set_scroll_lock(logger: &mut Logger, lock: bool)
    ensures
        final(logger).lock() == lock,
        final(logger).x() == old(logger).x(),
        final(logger).y() == old(logger).y(),
        final(logger).buffer() == old(logger).buffer(),
        old(logger).wf() ==> final(logger).wf(),
{
    logger.set_scroll_lock(lock);
}

} // verus!
