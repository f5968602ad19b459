//! Images as rows of pixels: 8-bit grayscale and RGBA8, with the pixel
//! operations that the CS reader needs.
use vstd::prelude::*;

verus! {

/// One RGBA8 pixel.
#[derive(Clone, Copy, Debug, PartialEq, Eq, Structural)]
pub struct Rgba {
    pub r: u8,
    pub g: u8,
    pub b: u8,
    pub a: u8,
}

/// An image as a sequence of `height` rows of `width` pixels each.
pub struct Raster<P> {
    pub width: u32,
    pub height: u32,
    pub rows: Seq<Seq<P>>,
}

impl<P> Raster<P> {
    /// Every row holds `width` pixels, and there are `height` rows.
    pub open spec fn is_shaped(self) -> bool {
        &&& self.rows.len() == self.height
        &&& forall|y: int| 0 <= y < self.rows.len() ==> #[trigger] self.rows[y].len() == self.width
    }

    /// The pixel in column `x` of row `y`.
    pub open spec fn pixel(self, x: int, y: int) -> P {
        self.rows[y][x]
    }
}

/// The rows of `rows`, one after the other.
pub open spec fn flatten_rows<A>(rows: Seq<Seq<A>>) -> Seq<A>
    decreases rows.len(),
{
    if rows.len() == 0 {
        Seq::empty()
    } else {
        flatten_rows(rows.drop_last()) + rows.last()
    }
}

/// `bytes` cut into `h` rows of `w` bytes.
pub open spec fn gray_rows_from_bytes(bytes: Seq<u8>, w: nat, h: nat) -> Seq<Seq<u8>> {
    Seq::new(h, |y: int| bytes.subrange(y * w, y * w + w))
}

/// The pixel held by the four bytes of `bytes` from index `i`.
pub open spec fn rgba_at(bytes: Seq<u8>, i: int) -> Rgba {
    Rgba { r: bytes[i], g: bytes[i + 1], b: bytes[i + 2], a: bytes[i + 3] }
}

/// `bytes` read as `h` rows of `w` RGBA pixels of four bytes each.
pub open spec fn rgba_rows_from_bytes(bytes: Seq<u8>, w: nat, h: nat) -> Seq<Seq<Rgba>> {
    Seq::new(h, |y: int| Seq::new(w, |x: int| rgba_at(bytes, 4 * (y * w + x))))
}

/// The four bytes of each pixel of `row`, in order.
pub open spec fn rgba_row_bytes(row: Seq<Rgba>) -> Seq<u8>
    decreases row.len(),
{
    if row.len() == 0 {
        Seq::empty()
    } else {
        let p = row.last();
        rgba_row_bytes(row.drop_last()) + seq![p.r, p.g, p.b, p.a]
    }
}

/// The bytes of an RGBA image, row after row, pixel after pixel.
pub open spec fn rgba_bytes(rows: Seq<Seq<Rgba>>) -> Seq<u8> {
    flatten_rows(rows.map_values(|row: Seq<Rgba>| rgba_row_bytes(row)))
}

/// The part of `r` that starts at column `x`, row `y` and is `w` by `h` pixels,
/// cut back to the image's bounds (as `image::imageops::crop_imm` does).
pub open spec fn crop_spec<P>(r: Raster<P>, x: u32, y: u32, w: u32, h: u32) -> Raster<P> {
    let x0 = if x <= r.width { x } else { r.width };
    let y0 = if y <= r.height { y } else { r.height };
    let cw = if w <= r.width - x0 { w } else { (r.width - x0) as u32 };
    let ch = if h <= r.height - y0 { h } else { (r.height - y0) as u32 };
    Raster {
        width: cw,
        height: ch,
        rows: Seq::new(ch as nat, |i: int| r.rows[y0 + i].subrange(x0 as int, x0 + cw)),
    }
}

/// Binary threshold with inversion: a pixel brighter than `t` turns black (0),
/// any other turns white (255).
pub open spec fn threshold_spec(r: Raster<u8>, t: u8) -> Raster<u8> {
    Raster {
        width: r.width,
        height: r.height,
        rows: Seq::new(
            r.rows.len(),
            |y: int| Seq::new(r.rows[y].len(), |x: int| if r.rows[y][x] > t { 0u8 } else { 255u8 }),
        ),
    }
}

/// A dark pixel is one below 128.
pub open spec fn dark_at(r: Raster<u8>, x: int, y: int) -> bool {
    0 <= y < r.height && 0 <= x < r.width && r.pixel(x, y) < 128
}

/// `b = (min_x, min_y, max_x, max_y)` is the smallest box holding every dark pixel of `r`.
pub open spec fn is_dark_box(r: Raster<u8>, b: (u32, u32, u32, u32)) -> bool {
    &&& exists|y: int| dark_at(r, b.0 as int, y)
    &&& exists|x: int| dark_at(r, x, b.1 as int)
    &&& exists|y: int| dark_at(r, b.2 as int, y)
    &&& exists|x: int| dark_at(r, x, b.3 as int)
    &&& forall|x: int, y: int|
        dark_at(r, x, y) ==> b.0 <= x <= b.2 && b.1 <= y <= b.3
}

/// The box around the dark pixels of `r`, if it has any.
pub open spec fn dark_bounds(r: Raster<u8>) -> Option<(u32, u32, u32, u32)> {
    if exists|x: int, y: int| dark_at(r, x, y) {
        Some(choose|b: (u32, u32, u32, u32)| is_dark_box(r, b))
    } else {
        None
    }
}

/// Whether pixel `(x, y)` lies on the outline of the rectangle with corners
/// `(x1, y1)` and `(x2, y2)`.
pub open spec fn on_outline(x: int, y: int, x1: int, y1: int, x2: int, y2: int) -> bool {
    ||| (x1 <= x <= x2 && (y == y1 || y == y2))
    ||| (y1 <= y <= y2 && (x == x1 || x == x2))
}

/// `r` with the outline of the rectangle from `(x1, y1)` to `(x2, y2)` painted `color`.
pub open spec fn outline_spec(r: Raster<Rgba>, x1: u32, y1: u32, x2: u32, y2: u32, color: Rgba) -> Raster<Rgba> {
    Raster {
        width: r.width,
        height: r.height,
        rows: Seq::new(
            r.rows.len(),
            |y: int|
                Seq::new(
                    r.rows[y].len(),
                    |x: int|
                        if on_outline(x, y, x1 as int, y1 as int, x2 as int, y2 as int) {
                            color
                        } else {
                            r.rows[y][x]
                        },
                ),
        ),
    }
}

/// The grayscale version of an RGBA image, as `image` converts it.
pub open spec fn luma_spec(r: Raster<Rgba>) -> Raster<u8> {
    Raster {
        width: r.width,
        height: r.height,
        rows: gray_rows_from_bytes(
            rgba8_to_luma8(r.width, r.height, rgba_bytes(r.rows)),
            r.width as nat,
            r.height as nat,
        ),
    }
}

/// The grayscale bytes that `image` computes for the RGBA8 image of the given
/// size and bytes (`DynamicImage::into_luma8`).
pub uninterp spec fn rgba8_to_luma8(width: u32, height: u32, rgba: Seq<u8>) -> Seq<u8>;

/// The PNG file that `image` writes for the given grayscale image
/// (`ImageBuffer::write_to` with `ImageFormat::Png`), or `None` where it fails.
pub uninterp spec fn png_encoding(width: u32, height: u32, gray: Seq<u8>) -> Option<Seq<u8>>;

/// Calls `DynamicImage::into_luma8` on an RGBA8 buffer. The result is named
/// `rgba8_to_luma8` of the arguments; that the image keeps its size, one byte a
/// pixel, is what the conversion does (`cast_in_color_space` builds a buffer of
/// the same width and height). The colour arithmetic is left unsaid; it uses a
/// fused multiply-add only where the build targets one, so the grey values are
/// fixed for a given build of the program.
#[verifier::external_body]
fn luma8_of_rgba8(width: u32, height: u32, rgba: Vec<u8>) -> (gray: Vec<u8>)
    requires
        rgba@.len() == 4 * width * height,
    ensures
        gray@ == rgba8_to_luma8(width, height, rgba@),
        gray@.len() == width * height,
{
    let buffer = image::RgbaImage::from_raw(width, height, rgba).unwrap();
    image::DynamicImage::ImageRgba8(buffer).into_luma8().into_raw()
}

/// Calls `image::imageops::resize` with `FilterType::Lanczos3`. The result has
/// `nwidth * nheight` bytes, as `resize` returns an image of the requested size.
/// Nothing more is claimed: the filter evaluates `f32::sin`, whose precision is
/// unspecified, so the sampled values may differ between machines and builds.
#[verifier::external_body]
fn resize_lanczos3_raw(width: u32, height: u32, gray: Vec<u8>, nwidth: u32, nheight: u32) -> (out: Vec<u8>)
    requires
        gray@.len() == width * height,
        nwidth * nheight <= usize::MAX,
    ensures
        out@.len() == nwidth * nheight,
{
    let buffer = image::GrayImage::from_raw(width, height, gray).unwrap();
    image::imageops::resize(&buffer, nwidth, nheight, image::imageops::FilterType::Lanczos3).into_raw()
}

/// Calls `ImageBuffer::write_to` with `ImageFormat::Png` into an in-memory
/// buffer. What comes back, the bytes or the failure, is named `png_encoding`
/// of the arguments; nothing is claimed of the PNG bytes themselves.
#[verifier::external_body]
fn encode_png_raw(width: u32, height: u32, gray: Vec<u8>) -> (png: Option<Vec<u8>>)
    requires
        gray@.len() == width * height,
    ensures
        match png {
            Some(bytes) => png_encoding(width, height, gray@) == Some(bytes@),
            None => png_encoding(width, height, gray@) is None,
        },
{
    let buffer = image::GrayImage::from_raw(width, height, gray).unwrap();
    let mut out: Vec<u8> = Vec::new();
    match buffer.write_to(&mut std::io::Cursor::new(&mut out), image::ImageFormat::Png) {
        Ok(()) => Some(out),
        Err(_) => None,
    }
}

proof fn lemma_row_step(y: int, w: int, h: int)
    requires
        0 <= y < h,
        0 <= w,
    ensures
        y * w + w == (y + 1) * w,
        (y + 1) * w <= w * h,
        0 <= y * w,
        4 * w * h == 4 * (w * h),
{
    assert(y * w + w == (y + 1) * w) by (nonlinear_arith);
    assert((y + 1) * w <= w * h) by (nonlinear_arith)
        requires
            y + 1 <= h,
            0 <= w,
    ;
    assert(4 * w * h == 4 * (w * h)) by (nonlinear_arith);
    assert(0 <= y * w) by (nonlinear_arith)
        requires
            0 <= y,
            0 <= w,
    ;
}

/// Cuts the first `w * h` values of `bytes` into `h` rows of `w`.
fn rows_from_bytes(bytes: &Vec<u8>, w: u32, h: u32) -> (rows: Vec<Vec<u8>>)
    requires
        bytes@.len() == w * h,
    ensures
        rows@.map_values(|row: Vec<u8>| row@) == gray_rows_from_bytes(bytes@, w as nat, h as nat),
        rows@.len() == h,
        forall|y: int| 0 <= y < h ==> #[trigger] rows@[y]@.len() == w,
{
    let total = bytes.len();
    let mut rows: Vec<Vec<u8>> = Vec::new();
    let mut y: u32 = 0;
    let mut off: usize = 0;
    while y < h
        invariant
            total == bytes@.len(),
            y <= h,
            bytes@.len() == w * h,
            off == y * w,
            rows@.len() == y,
            forall|k: int| 0 <= k < y ==> #[trigger] rows@[k]@ == bytes@.subrange(k * w, k * w + w),
            forall|k: int| 0 <= k < y ==> #[trigger] rows@[k]@.len() == w,
        decreases h - y,
    {
        proof {
            lemma_row_step(y as int, w as int, h as int);
        }
        let mut row: Vec<u8> = Vec::new();
        let mut x: u32 = 0;
        assert(row@ =~= bytes@.subrange(off as int, off as int));
        while x < w
            invariant
                total == bytes@.len(),
                x <= w,
                off + w <= bytes@.len(),
                row@ == bytes@.subrange(off as int, off + x),
            decreases w - x,
        {
            row.push(bytes[off + (x as usize)]);
            x += 1;
            assert(row@ =~= bytes@.subrange(off as int, off + x));
        }
        rows.push(row);
        off += w as usize;
        y += 1;
    }
    assert(rows@.map_values(|row: Vec<u8>| row@) =~= gray_rows_from_bytes(bytes@, w as nat, h as nat));
    rows
}

/// Reads `bytes` as `h` rows of `w` pixels of four bytes each.
fn rgba_rows_from_raw(bytes: &Vec<u8>, w: u32, h: u32) -> (rows: Vec<Vec<Rgba>>)
    requires
        bytes@.len() == 4 * w * h,
    ensures
        rows@.map_values(|row: Vec<Rgba>| row@) == rgba_rows_from_bytes(bytes@, w as nat, h as nat),
        rows@.len() == h,
        forall|y: int| 0 <= y < h ==> #[trigger] rows@[y]@.len() == w,
{
    let total = bytes.len();
    let mut rows: Vec<Vec<Rgba>> = Vec::new();
    let mut y: u32 = 0;
    let mut off: usize = 0;
    while y < h
        invariant
            total == bytes@.len(),
            y <= h,
            bytes@.len() == 4 * w * h,
            off == 4 * (y * w),
            rows@.len() == y,
            forall|k: int| 0 <= k < y ==> #[trigger] rows@[k]@ == Seq::new(w as nat, |x: int| rgba_at(bytes@, 4 * (k * w + x))),
            forall|k: int| 0 <= k < y ==> #[trigger] rows@[k]@.len() == w,
        decreases h - y,
    {
        proof {
            lemma_row_step(y as int, w as int, h as int);
        }
        let mut row: Vec<Rgba> = Vec::new();
        let mut x: u32 = 0;
        assert(row@ =~= Seq::new(0, |i: int| rgba_at(bytes@, 4 * (y * w + i))));
        while x < w
            invariant
                total == bytes@.len(),
                x <= w,
                off == 4 * (y * w),
                y < h,
                (y + 1) * w <= h * w,
                bytes@.len() == 4 * w * h,
                4 * w * h == 4 * (w * h),
                y * w + w == (y + 1) * w,
                off + 4 * w <= bytes@.len(),
                row@ == Seq::new(x as nat, |i: int| rgba_at(bytes@, 4 * (y * w + i))),
            decreases w - x,
        {
            let i = off + 4 * (x as usize);
            let p = Rgba { r: bytes[i], g: bytes[i + 1], b: bytes[i + 2], a: bytes[i + 3] };
            row.push(p);
            x += 1;
            assert(row@ =~= Seq::new(x as nat, |i: int| rgba_at(bytes@, 4 * (y * w + i))));
        }
        assert(row@ =~= Seq::new(w as nat, |x: int| rgba_at(bytes@, 4 * (y * w + x))));
        rows.push(row);
        off += 4 * (w as usize);
        y += 1;
    }
    assert(rows@.map_values(|row: Vec<Rgba>| row@) =~= rgba_rows_from_bytes(bytes@, w as nat, h as nat));
    rows
}

/// An 8-bit grayscale image.
pub struct GrayImage {
    width: u32,
    height: u32,
    rows: Vec<Vec<u8>>,
}

impl View for GrayImage {
    type V = Raster<u8>;

    closed spec fn view(&self) -> Raster<u8> {
        Raster {
            width: self.width,
            height: self.height,
            rows: self.rows@.map_values(|row: Vec<u8>| row@),
        }
    }
}

impl GrayImage {
    #[verifier::type_invariant]
    spec fn well_formed(self) -> bool {
        &&& self.rows@.len() == self.height
        &&& forall|y: int| 0 <= y < self.rows@.len() ==> #[trigger] self.rows@[y]@.len() == self.width
    }

    /// Builds an image from its bytes, row after row; `None` unless there are
    /// exactly `width * height` of them.
    pub fn from_raw(width: u32, height: u32, pixels: Vec<u8>) -> (img: Option<GrayImage>)
        ensures
            match img {
                Some(img) => pixels@.len() == width * height && img@ == (Raster {
                    width,
                    height,
                    rows: gray_rows_from_bytes(pixels@, width as nat, height as nat),
                }),
                None => pixels@.len() != width * height,
            },
    {
        assert(width as u64 * height as u64 <= u64::MAX) by (nonlinear_arith);
        if pixels.len() as u64 != width as u64 * height as u64 {
            return None;
        }
        let rows = rows_from_bytes(&pixels, width, height);
        Some(GrayImage { width, height, rows })
    }

    pub fn width(&self) -> (w: u32)
        ensures
            w == self@.width,
    {
        self.width
    }

    pub fn height(&self) -> (h: u32)
        ensures
            h == self@.height,
    {
        self.height
    }

    /// The shape of the view: `height` rows of `width` pixels.
    pub fn shape_holds(&self)
        ensures
            self@.is_shaped(),
    {
        proof {
            use_type_invariant(self);
        }
    }

    /// The pixel in column `x` of row `y`.
    pub fn get_pixel(&self, x: u32, y: u32) -> (p: u8)
        requires
            x < self@.width,
            y < self@.height,
        ensures
            p == self@.pixel(x as int, y as int),
    {
        proof {
            use_type_invariant(self);
        }
        self.rows[y as usize][x as usize]
    }

    /// The image's bytes, row after row.
    pub fn to_raw(&self) -> (bytes: Vec<u8>)
        ensures
            bytes@ == flatten_rows(self@.rows),
            bytes@.len() == self@.width * self@.height,
    {
        proof {
            use_type_invariant(self);
        }
        let ghost vr = self@.rows;
        let mut out: Vec<u8> = Vec::new();
        let mut y: usize = 0;
        while y < self.rows.len()
            invariant
                self.rows@.len() == self.height,
                vr == self@.rows,
                forall|k: int| 0 <= k < self.rows@.len() ==> #[trigger] self.rows@[k]@.len() == self.width,
                y <= self.rows@.len(),
                out@ == flatten_rows(vr.take(y as int)),
                out@.len() == y * self.width,
            decreases self.rows@.len() - y,
        {
            let row = &self.rows[y];
            let ghost before = out@;
            let mut x: usize = 0;
            while x < row.len()
                invariant
                    x <= row@.len(),
                    out@ == before + row@.take(x as int),
                decreases row@.len() - x,
            {
                out.push(row[x]);
                x += 1;
                assert(out@ =~= before + row@.take(x as int));
            }
            assert(vr.take(y + 1).drop_last() =~= vr.take(y as int));
            assert(row@.take(x as int) =~= row@);
            assert(vr[y as int] == row@);
            y += 1;
            assert(out@.len() == y * self.width) by (nonlinear_arith)
                requires
                    out@.len() == before.len() + self.width,
                    before.len() == (y - 1) * self.width,
            ;
        }
        assert(vr.take(y as int) =~= vr);
        assert(out@.len() == self.width * self.height) by (nonlinear_arith)
            requires
                out@.len() == y * self.width,
                y == self.height,
        ;
        out
    }

    /// A copy of the image.
    pub fn duplicate(&self) -> (out: GrayImage)
        ensures
            out@ == self@,
    {
        proof {
            use_type_invariant(self);
        }
        let out = self.crop(0, 0, self.width, self.height);
        assert forall|i: int| 0 <= i < self@.rows.len() implies #[trigger] out@.rows[i] == self@.rows[i] by {
            assert(self@.rows[i].subrange(0, self.width as int) =~= self@.rows[i]);
        }
        assert(out@.rows =~= self@.rows);
        out
    }

    /// The inverted binary threshold of the image (see `threshold_spec`).
    pub fn threshold_inverted(&self, t: u8) -> (out: GrayImage)
        ensures
            out@ == threshold_spec(self@, t),
    {
        proof {
            use_type_invariant(self);
        }
        let mut rows: Vec<Vec<u8>> = Vec::new();
        let mut y: usize = 0;
        while y < self.rows.len()
            invariant
                self.rows@.len() == self.height,
                forall|k: int| 0 <= k < self.rows@.len() ==> #[trigger] self.rows@[k]@.len() == self.width,
                y <= self.rows@.len(),
                rows@.len() == y,
                forall|k: int| 0 <= k < y ==> #[trigger] rows@[k]@ == threshold_spec(self@, t).rows[k],
            decreases self.rows@.len() - y,
        {
            let src = &self.rows[y];
            let mut row: Vec<u8> = Vec::new();
            let mut x: usize = 0;
            while x < src.len()
                invariant
                    x <= src@.len(),
                    row@ == Seq::new(x as nat, |i: int| if src@[i] > t { 0u8 } else { 255u8 }),
                decreases src@.len() - x,
            {
                let v: u8 = if src[x] > t { 0 } else { 255 };
                row.push(v);
                x += 1;
                assert(row@ =~= Seq::new(x as nat, |i: int| if src@[i] > t { 0u8 } else { 255u8 }));
            }
            assert(row@ =~= threshold_spec(self@, t).rows[y as int]);
            rows.push(row);
            y += 1;
        }
        let out = GrayImage { width: self.width, height: self.height, rows };
        assert(out@.rows =~= threshold_spec(self@, t).rows);
        out
    }

    /// The part of the image from column `x`, row `y`, `w` by `h` pixels, cut
    /// back to the image's bounds.
    pub fn crop(&self, x: u32, y: u32, w: u32, h: u32) -> (out: GrayImage)
        ensures
            out@ == crop_spec(self@, x, y, w, h),
    {
        proof {
            use_type_invariant(self);
        }
        let (rows, cw, ch) = crop_rows(&self.rows, self.width, self.height, x, y, w, h);
        GrayImage { width: cw, height: ch, rows }
    }

    /// The smallest box `(min_x, min_y, max_x, max_y)` around the pixels darker
    /// than 128, if there are any.
    pub fn dark_bounds(&self) -> (b: Option<(u32, u32, u32, u32)>)
        ensures
            b == dark_bounds(self@),
            b matches Some(bb) ==> is_dark_box(self@, bb),
    {
        proof {
            use_type_invariant(self);
        }
        let ghost r = self@;
        let w = self.width;
        let h = self.height;
        let mut min_x = w;
        let mut min_y = h;
        let mut max_x: u32 = 0;
        let mut max_y: u32 = 0;
        let mut found = false;
        let ghost mut wx: int = 0;
        let ghost mut wy: int = 0;
        let mut y: u32 = 0;
        while y < h
            invariant
                r == self@,
                self.rows@.len() == h,
                h == r.height,
                w == r.width,
                forall|k: int| 0 <= k < self.rows@.len() ==> #[trigger] self.rows@[k]@.len() == w,
                y <= h,
                found ==> dark_at(r, wx, wy),
                found <==> exists|px: int, py: int| py < y && dark_at(r, px, py),
                found ==> (exists|py: int| dark_at(r, min_x as int, py)) && (exists|px: int|
                    dark_at(r, px, min_y as int)) && (exists|py: int| dark_at(r, max_x as int, py))
                    && (exists|px: int| dark_at(r, px, max_y as int)),
                forall|px: int, py: int|
                    py < y && dark_at(r, px, py) ==> min_x <= px <= max_x && min_y <= py <= max_y,
            decreases h - y,
        {
            let mut x: u32 = 0;
            while x < w
                invariant
                    r == self@,
                    self.rows@.len() == h,
                    h == r.height,
                    w == r.width,
                    forall|k: int| 0 <= k < self.rows@.len() ==> #[trigger] self.rows@[k]@.len() == w,
                    y < h,
                    x <= w,
                    found ==> dark_at(r, wx, wy),
                    found <==> exists|px: int, py: int|
                        (py < y || (py == y && px < x)) && dark_at(r, px, py),
                    found ==> (exists|py: int| dark_at(r, min_x as int, py)) && (exists|px: int|
                        dark_at(r, px, min_y as int)) && (exists|py: int|
                        dark_at(r, max_x as int, py)) && (exists|px: int|
                        dark_at(r, px, max_y as int)),
                    forall|px: int, py: int|
                        (py < y || (py == y && px < x)) && dark_at(r, px, py) ==> min_x <= px
                            <= max_x && min_y <= py <= max_y,
                decreases w - x,
            {
                let p = self.rows[y as usize][x as usize];
                assert(r.pixel(x as int, y as int) == p);
                if p < 128 {
                    assert(dark_at(r, x as int, y as int));
                    if !found {
                        min_x = x;
                        min_y = y;
                        max_x = x;
                        max_y = y;
                    } else {
                        if x < min_x {
                            min_x = x;
                        }
                        if y < min_y {
                            min_y = y;
                        }
                        if x > max_x {
                            max_x = x;
                        }
                        if y > max_y {
                            max_y = y;
                        }
                    }
                    found = true;
                    proof {
                        wx = x as int;
                        wy = y as int;
                    }
                }
                x += 1;
            }
            y += 1;
        }
        if !found {
            return None;
        }
        let b = (min_x, min_y, max_x, max_y);
        assert forall|px: int, py: int| dark_at(r, px, py) implies b.0 <= px <= b.2 && b.1 <= py
            <= b.3 by {
            assert(py < y);
        }
        assert(exists|py: int| dark_at(r, b.0 as int, py));
        assert(exists|px: int| dark_at(r, px, b.1 as int));
        assert(exists|py: int| dark_at(r, b.2 as int, py));
        assert(exists|px: int| dark_at(r, px, b.3 as int));
        assert(is_dark_box(r, b));
        proof {
            lemma_dark_box_unique(r, b);
        }
        Some(b)
    }

    /// The image resized to `nwidth` by `nheight` with the Lanczos3 filter.
    /// The resampled values depend on the machine's `f32::sin`; what holds of
    /// every outcome is the size.
    pub fn resize_lanczos3(&self, nwidth: u32, nheight: u32) -> (out: GrayImage)
        requires
            nwidth * nheight <= usize::MAX,
        ensures
            out@.width == nwidth,
            out@.height == nheight,
            out@.is_shaped(),
    {
        let bytes = self.to_raw();
        let resized = resize_lanczos3_raw(self.width, self.height, bytes, nwidth, nheight);
        let rows = rows_from_bytes(&resized, nwidth, nheight);
        GrayImage { width: nwidth, height: nheight, rows }
    }

    /// The image written as a PNG file, or `None` where the encoder fails.
    pub fn encode_png(&self) -> (png: Option<Vec<u8>>)
        ensures
            match png {
                Some(bytes) => png_encoding(self@.width, self@.height, flatten_rows(self@.rows))
                    == Some(bytes@),
                None => png_encoding(self@.width, self@.height, flatten_rows(self@.rows)) is None,
            },
    {
        let bytes = self.to_raw();
        encode_png_raw(self.width, self.height, bytes)
    }
}

/// The dark pixels that lie on the four sides of a dark box.
pub proof fn lemma_dark_box_witnesses(r: Raster<u8>, b: (u32, u32, u32, u32)) -> (w: (int, int, int, int))
    requires
        is_dark_box(r, b),
    ensures
        dark_at(r, b.0 as int, w.0),
        dark_at(r, w.1, b.1 as int),
        dark_at(r, b.2 as int, w.2),
        dark_at(r, w.3, b.3 as int),
        b.0 <= b.2 < r.width,
        b.1 <= b.3 < r.height,
{
    let y0 = choose|y: int| dark_at(r, b.0 as int, y);
    let x1 = choose|x: int| dark_at(r, x, b.1 as int);
    let y2 = choose|y: int| dark_at(r, b.2 as int, y);
    let x3 = choose|x: int| dark_at(r, x, b.3 as int);
    assert(dark_at(r, b.0 as int, y0));
    assert(dark_at(r, b.2 as int, y2));
    assert(dark_at(r, x1, b.1 as int));
    assert(dark_at(r, x3, b.3 as int));
    (y0, x1, y2, x3)
}

/// A box with the properties of `is_dark_box` is the one `dark_bounds` picks.
proof fn lemma_dark_box_unique(r: Raster<u8>, b: (u32, u32, u32, u32))
    requires
        is_dark_box(r, b),
    ensures
        dark_bounds(r) == Some(b),
{
    let wb = lemma_dark_box_witnesses(r, b);
    let c = choose|c: (u32, u32, u32, u32)| is_dark_box(r, c);
    assert(is_dark_box(r, c));
    let wc = lemma_dark_box_witnesses(r, c);
    assert(b.0 <= c.0 && c.0 <= b.0);
    assert(b.1 <= c.1 && c.1 <= b.1);
    assert(c.2 <= b.2 && b.2 <= c.2);
    assert(c.3 <= b.3 && b.3 <= c.3);
}

/// Copies the rows `y0..y0+ch` of `rows`, columns `x0..x0+cw`, after cutting the
/// requested box back to a `width` by `height` image.
fn crop_rows<P: Copy>(
    rows: &Vec<Vec<P>>,
    width: u32,
    height: u32,
    x: u32,
    y: u32,
    w: u32,
    h: u32,
) -> (res: (Vec<Vec<P>>, u32, u32))
    requires
        rows@.len() == height,
        forall|k: int| 0 <= k < rows@.len() ==> #[trigger] rows@[k]@.len() == width,
    ensures
        ({
            let c = crop_spec(
                Raster { width, height, rows: rows@.map_values(|row: Vec<P>| row@) },
                x,
                y,
                w,
                h,
            );
            &&& res.1 == c.width
            &&& res.2 == c.height
            &&& res.0@.map_values(|row: Vec<P>| row@) == c.rows
            &&& res.0@.len() == res.2
            &&& forall|k: int| 0 <= k < res.0@.len() ==> #[trigger] res.0@[k]@.len() == res.1
        }),
{
    let ghost r = Raster { width, height, rows: rows@.map_values(|row: Vec<P>| row@) };
    let ghost c = crop_spec(r, x, y, w, h);
    let x0 = if x <= width { x } else { width };
    let y0 = if y <= height { y } else { height };
    let cw = if w <= width - x0 { w } else { width - x0 };
    let ch = if h <= height - y0 { h } else { height - y0 };
    let mut out: Vec<Vec<P>> = Vec::new();
    let mut i: u32 = 0;
    while i < ch
        invariant
            rows@.len() == height,
            forall|k: int| 0 <= k < rows@.len() ==> #[trigger] rows@[k]@.len() == width,
            r == (Raster { width, height, rows: rows@.map_values(|row: Vec<P>| row@) }),
            c == crop_spec(r, x, y, w, h),
            c.width == cw,
            c.height == ch,
            x0 == (if x <= width { x } else { width }),
            y0 == (if y <= height { y } else { height }),
            y0 + ch <= height,
            x0 + cw <= width,
            i <= ch,
            out@.len() == i,
            forall|k: int| 0 <= k < i ==> #[trigger] out@[k]@ == c.rows[k],
        decreases ch - i,
    {
        let src = &rows[(y0 + i) as usize];
        assert(r.rows[y0 + i] == src@);
        let mut row: Vec<P> = Vec::new();
        let mut j: u32 = 0;
        while j < cw
            invariant
                src@.len() == width,
                x0 + cw <= width,
                j <= cw,
                row@ == src@.subrange(x0 as int, x0 + j),
            decreases cw - j,
        {
            row.push(src[(x0 + j) as usize]);
            j += 1;
            assert(row@ =~= src@.subrange(x0 as int, x0 + j));
        }
        assert(c.rows[i as int] == r.rows[y0 + i].subrange(x0 as int, x0 + cw));
        assert(row@ =~= c.rows[i as int]);
        out.push(row);
        i += 1;
    }
    assert(out@.map_values(|row: Vec<P>| row@) =~= c.rows);
    (out, cw, ch)
}

/// An RGBA8 image.
pub struct RgbaImage {
    width: u32,
    height: u32,
    rows: Vec<Vec<Rgba>>,
}

impl View for RgbaImage {
    type V = Raster<Rgba>;

    closed spec fn view(&self) -> Raster<Rgba> {
        Raster {
            width: self.width,
            height: self.height,
            rows: self.rows@.map_values(|row: Vec<Rgba>| row@),
        }
    }
}

impl RgbaImage {
    #[verifier::type_invariant]
    spec fn well_formed(self) -> bool {
        &&& self.rows@.len() == self.height
        &&& forall|y: int| 0 <= y < self.rows@.len() ==> #[trigger] self.rows@[y]@.len() == self.width
    }

    /// Builds an image from its bytes, four a pixel, row after row; `None`
    /// unless there are exactly `4 * width * height` of them.
    pub fn from_raw(width: u32, height: u32, bytes: Vec<u8>) -> (img: Option<RgbaImage>)
        ensures
            match img {
                Some(img) => bytes@.len() == 4 * width * height && img@ == (Raster {
                    width,
                    height,
                    rows: rgba_rows_from_bytes(bytes@, width as nat, height as nat),
                }),
                None => bytes@.len() != 4 * width * height,
            },
    {
        assert(4 * (width as u128) * (height as u128) <= u128::MAX) by (nonlinear_arith);
        if bytes.len() as u128 != 4 * (width as u128) * (height as u128) {
            return None;
        }
        let rows = rgba_rows_from_raw(&bytes, width, height);
        Some(RgbaImage { width, height, rows })
    }

    pub fn width(&self) -> (w: u32)
        ensures
            w == self@.width,
    {
        self.width
    }

    pub fn height(&self) -> (h: u32)
        ensures
            h == self@.height,
    {
        self.height
    }

    /// The shape of the view: `height` rows of `width` pixels.
    pub fn shape_holds(&self)
        ensures
            self@.is_shaped(),
    {
        proof {
            use_type_invariant(self);
        }
    }

    /// The pixel in column `x` of row `y`.
    pub fn get_pixel(&self, x: u32, y: u32) -> (p: Rgba)
        requires
            x < self@.width,
            y < self@.height,
        ensures
            p == self@.pixel(x as int, y as int),
    {
        proof {
            use_type_invariant(self);
        }
        self.rows[y as usize][x as usize]
    }

    /// The image's bytes: four a pixel, pixel after pixel, row after row.
    pub fn to_raw(&self) -> (bytes: Vec<u8>)
        ensures
            bytes@ == rgba_bytes(self@.rows),
            bytes@.len() == 4 * self@.width * self@.height,
    {
        proof {
            use_type_invariant(self);
        }
        let ghost vr = self@.rows;
        let ghost br = vr.map_values(|row: Seq<Rgba>| rgba_row_bytes(row));
        let mut out: Vec<u8> = Vec::new();
        let mut y: usize = 0;
        while y < self.rows.len()
            invariant
                self.rows@.len() == self.height,
                vr == self@.rows,
                br == vr.map_values(|row: Seq<Rgba>| rgba_row_bytes(row)),
                forall|k: int| 0 <= k < self.rows@.len() ==> #[trigger] self.rows@[k]@.len() == self.width,
                y <= self.rows@.len(),
                out@ == flatten_rows(br.take(y as int)),
                out@.len() == 4 * (y * self.width),
            decreases self.rows@.len() - y,
        {
            let row = &self.rows[y];
            let ghost before = out@;
            let mut x: usize = 0;
            while x < row.len()
                invariant
                    x <= row@.len(),
                    out@ == before + rgba_row_bytes(row@.take(x as int)),
                    out@.len() == before.len() + 4 * x,
                decreases row@.len() - x,
            {
                let p = row[x];
                out.push(p.r);
                out.push(p.g);
                out.push(p.b);
                out.push(p.a);
                assert(row@.take(x + 1).drop_last() =~= row@.take(x as int));
                x += 1;
                assert(out@ =~= before + rgba_row_bytes(row@.take(x as int)));
            }
            assert(br.take(y + 1).drop_last() =~= br.take(y as int));
            assert(row@.take(x as int) =~= row@);
            assert(vr[y as int] == row@);
            y += 1;
            assert(out@.len() == 4 * (y * self.width)) by (nonlinear_arith)
                requires
                    out@.len() == before.len() + 4 * self.width,
                    before.len() == 4 * ((y - 1) * self.width),
            ;
        }
        assert(br.take(y as int) =~= br);
        assert(out@.len() == 4 * self.width * self.height) by (nonlinear_arith)
            requires
                out@.len() == 4 * (self.height * self.width),
        ;
        out
    }

    /// The part of the image from column `x`, row `y`, `w` by `h` pixels, cut
    /// back to the image's bounds.
    pub fn crop(&self, x: u32, y: u32, w: u32, h: u32) -> (out: RgbaImage)
        ensures
            out@ == crop_spec(self@, x, y, w, h),
    {
        proof {
            use_type_invariant(self);
        }
        let (rows, cw, ch) = crop_rows(&self.rows, self.width, self.height, x, y, w, h);
        RgbaImage { width: cw, height: ch, rows }
    }

    /// The image converted to grayscale by `image`'s RGBA-to-luma conversion.
    pub fn to_luma(&self) -> (out: GrayImage)
        ensures
            out@ == luma_spec(self@),
    {
        let bytes = self.to_raw();
        let gray = luma8_of_rgba8(self.width, self.height, bytes);
        let rows = rows_from_bytes(&gray, self.width, self.height);
        GrayImage { width: self.width, height: self.height, rows }
    }

    /// The image with the outline of the rectangle from `(x1, y1)` to `(x2, y2)`
    /// painted `color`.
    pub fn with_outline(&self, x1: u32, y1: u32, x2: u32, y2: u32, color: Rgba) -> (out: RgbaImage)
        ensures
            out@ == outline_spec(self@, x1, y1, x2, y2, color),
    {
        proof {
            use_type_invariant(self);
        }
        let ghost r = self@;
        let ghost o = outline_spec(r, x1, y1, x2, y2, color);
        let mut rows: Vec<Vec<Rgba>> = Vec::new();
        let mut y: u32 = 0;
        while y < self.height
            invariant
                r == self@,
                o == outline_spec(r, x1, y1, x2, y2, color),
                self.rows@.len() == self.height,
                forall|k: int| 0 <= k < self.rows@.len() ==> #[trigger] self.rows@[k]@.len() == self.width,
                y <= self.height,
                rows@.len() == y,
                forall|k: int| 0 <= k < y ==> #[trigger] rows@[k]@ == o.rows[k],
            decreases self.height - y,
        {
            let src = &self.rows[y as usize];
            let mut row: Vec<Rgba> = Vec::new();
            let mut x: u32 = 0;
            while x < self.width
                invariant
                    src@.len() == self.width,
                    x <= self.width,
                    row@ == Seq::new(
                        x as nat,
                        |i: int|
                            if on_outline(i, y as int, x1 as int, y1 as int, x2 as int, y2 as int) {
                                color
                            } else {
                                src@[i]
                            },
                    ),
                decreases self.width - x,
            {
                let on = (x1 <= x && x <= x2 && (y == y1 || y == y2)) || (y1 <= y && y <= y2 && (x
                    == x1 || x == x2));
                let p = if on { color } else { src[x as usize] };
                row.push(p);
                x += 1;
                assert(row@ =~= Seq::new(
                    x as nat,
                    |i: int|
                        if on_outline(i, y as int, x1 as int, y1 as int, x2 as int, y2 as int) {
                            color
                        } else {
                            src@[i]
                        },
                ));
            }
            assert(row@ =~= o.rows[y as int]);
            rows.push(row);
            y += 1;
        }
        let out = RgbaImage { width: self.width, height: self.height, rows };
        assert(out@.rows =~= o.rows);
        out
    }
}

/// Reading bytes as grayscale rows and writing the rows back gives the bytes
/// again: `to_raw` undoes `from_raw`.
pub proof fn lemma_gray_bytes_round_trip(bytes: Seq<u8>, w: nat, h: nat)
    requires
        bytes.len() == w * h,
    ensures
        flatten_rows(gray_rows_from_bytes(bytes, w, h)) == bytes,
{
    lemma_gray_rows_prefix(bytes, w, h);
    assert(bytes.take((h * w) as int) =~= bytes) by {
        assert(h * w == w * h) by (nonlinear_arith);
    }
}

proof fn lemma_gray_rows_prefix(bytes: Seq<u8>, w: nat, k: nat)
    requires
        k * w <= bytes.len(),
    ensures
        flatten_rows(gray_rows_from_bytes(bytes, w, k)) == bytes.take((k * w) as int),
    decreases k,
{
    if k == 0 {
        assert(k * w == 0) by (nonlinear_arith)
            requires
                k == 0,
        ;
        assert(gray_rows_from_bytes(bytes, w, 0) =~= Seq::<Seq<u8>>::empty());
        assert(bytes.take(0) =~= Seq::<u8>::empty());
    } else {
        let km = (k - 1) as nat;
        assert(km * w + w == k * w) by (nonlinear_arith)
            requires
                km + 1 == k,
        ;
        assert(km * w <= k * w) by (nonlinear_arith)
            requires
                km + 1 == k,
        ;
        lemma_gray_rows_prefix(bytes, w, km);
        let rows = gray_rows_from_bytes(bytes, w, k);
        assert(rows.drop_last() =~= gray_rows_from_bytes(bytes, w, km));
        assert(rows.last() == bytes.subrange((km * w) as int, (km * w + w) as int));
        assert(bytes.take((k * w) as int) =~= bytes.take((km * w) as int) + bytes.subrange(
            (km * w) as int,
            (km * w + w) as int,
        ));
    }
}

/// Reading bytes as RGBA rows and writing the rows back gives the bytes
/// again: `to_raw` undoes `from_raw`.
pub proof fn lemma_rgba_bytes_round_trip(bytes: Seq<u8>, w: nat, h: nat)
    requires
        bytes.len() == 4 * w * h,
    ensures
        rgba_bytes(rgba_rows_from_bytes(bytes, w, h)) == bytes,
{
    assert(4 * w * h == 4 * (h * w)) by (nonlinear_arith);
    lemma_rgba_rows_prefix(bytes, w, h);
    assert(bytes.take((4 * (h * w)) as int) =~= bytes);
}

proof fn lemma_rgba_row_prefix(bytes: Seq<u8>, base: int, x: nat)
    requires
        0 <= base,
        base + 4 * x <= bytes.len(),
    ensures
        rgba_row_bytes(Seq::new(x, |i: int| rgba_at(bytes, base + 4 * i))) == bytes.subrange(
            base,
            base + 4 * x,
        ),
    decreases x,
{
    let row = Seq::new(x, |i: int| rgba_at(bytes, base + 4 * i));
    if x == 0 {
        assert(bytes.subrange(base, base) =~= Seq::<u8>::empty());
    } else {
        let xm = (x - 1) as nat;
        lemma_rgba_row_prefix(bytes, base, xm);
        assert(row.drop_last() =~= Seq::new(xm, |i: int| rgba_at(bytes, base + 4 * i)));
        assert(bytes.subrange(base, base + 4 * x) =~= bytes.subrange(base, base + 4 * xm) + seq![
            bytes[base + 4 * xm],
            bytes[base + 4 * xm + 1],
            bytes[base + 4 * xm + 2],
            bytes[base + 4 * xm + 3],
        ]);
    }
}

proof fn lemma_rgba_rows_prefix(bytes: Seq<u8>, w: nat, k: nat)
    requires
        4 * (k * w) <= bytes.len(),
    ensures
        rgba_bytes(rgba_rows_from_bytes(bytes, w, k)) == bytes.take((4 * (k * w)) as int),
    decreases k,
{
    let rows = rgba_rows_from_bytes(bytes, w, k);
    let f = |row: Seq<Rgba>| rgba_row_bytes(row);
    if k == 0 {
        assert(k * w == 0) by (nonlinear_arith)
            requires
                k == 0,
        ;
        assert(rows.map_values(f) =~= Seq::<Seq<u8>>::empty());
        assert(bytes.take(0) =~= Seq::<u8>::empty());
    } else {
        let km = (k - 1) as nat;
        assert(km * w + w == k * w) by (nonlinear_arith)
            requires
                km + 1 == k,
        ;
        assert(0 <= km * w) by (nonlinear_arith);
        lemma_rgba_rows_prefix(bytes, w, km);
        assert(rows.drop_last() =~= rgba_rows_from_bytes(bytes, w, km));
        assert(rows.map_values(f).drop_last() =~= rows.drop_last().map_values(f));
        let base = (4 * (km * w)) as int;
        assert(rows.last() =~= Seq::new(w, |x: int| rgba_at(bytes, base + 4 * x)));
        lemma_rgba_row_prefix(bytes, base, w);
        assert(bytes.take((4 * (k * w)) as int) =~= bytes.take(base) + bytes.subrange(base, base + 4 * w));
    }
}

} // verus!
