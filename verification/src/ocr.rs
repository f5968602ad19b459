//! Reading the CS digits from the grayscale crop of the counter: the image
//! preparation, the reading of the recognizer's text, and the order in which
//! the thresholds are tried.
use vstd::prelude::*;
use crate::raster::{
    crop_spec, dark_at, dark_bounds, flatten_rows, is_dark_box, lemma_dark_box_witnesses, png_encoding,
    threshold_spec, GrayImage, Raster,
};
use crate::text::{
    all_ascii_digits, char_is_whitespace, chars_of, decimal_value, lemma_parse_i64_digits,
    lemma_trim_start_all_whitespace, lemma_trim_surrounded, parse_i64_range, parse_i64_spec, trim, trim_end,
    trim_range,
};

verus! {

/// Thresholds to try in order. 128 works for most digits; lower values
/// capture anti-aliased edges of rounder glyphs like "0" and "9".
pub open spec fn thresholds() -> Seq<u8> {
    seq![128u8, 100u8, 60u8]
}

/// The number of thresholds.
pub open spec fn attempt_count() -> nat {
    3
}

/// The threshold of attempt `i`.
pub fn threshold_at(i: usize) -> (t: u8)
    requires
        i < 3,
    ensures
        t == thresholds()[i as int],
{
    if i == 0 {
        128
    } else if i == 1 {
        100
    } else {
        60
    }
}

/// The margin kept around the dark content when trimming.
pub open spec fn trim_margin() -> u32 {
    5
}

/// The inputs on which trimming stays within `u32` arithmetic: where there are
/// dark pixels, twice the margin and the box widened by it must be
/// representable. An image without dark pixels and with columns is copied
/// whatever the margin; one without columns is not (its empty box is widened:
/// with rows the height computation underflows, and a 0 by 0 image needs
/// `1 + 2 * margin` to be representable).
pub open spec fn trim_fits(r: Raster<u8>, margin: u32) -> bool {
    match dark_bounds(r) {
        Some(b) => {
            &&& 2 * margin <= u32::MAX
            &&& b.2 - b.0 + 1 + 2 * margin <= u32::MAX
            &&& b.3 - b.1 + 1 + 2 * margin <= u32::MAX
        },
        None => r.width > 0 || (r.height == 0 && 1 + 2 * margin <= u32::MAX),
    }
}

/// The image cut down to the box around its dark pixels, widened by `margin`
/// on each side as far as the image goes; the image itself where it has no
/// dark pixel.
pub open spec fn trim_spec(r: Raster<u8>, margin: u32) -> Raster<u8> {
    match dark_bounds(r) {
        None => r,
        Some(b) => {
            let x = if b.0 >= margin { b.0 - margin } else { 0 };
            let y = if b.1 >= margin { b.1 - margin } else { 0 };
            let cw = if b.2 - b.0 + 1 + 2 * margin <= r.width - x {
                b.2 - b.0 + 1 + 2 * margin
            } else {
                r.width - x
            };
            let ch = if b.3 - b.1 + 1 + 2 * margin <= r.height - y {
                b.3 - b.1 + 1 + 2 * margin
            } else {
                r.height - y
            };
            crop_spec(r, x as u32, y as u32, cw as u32, ch as u32)
        },
    }
}

/// The corner at which `trim_spec` cuts.
pub open spec fn trim_origin(r: Raster<u8>, margin: u32) -> (int, int) {
    match dark_bounds(r) {
        None => (0, 0),
        Some(b) => (
            if b.0 >= margin { b.0 - margin } else { 0 },
            if b.1 >= margin { b.1 - margin } else { 0 },
        ),
    }
}

/// Trim whitespace around dark content, keeping a small margin.
pub fn trim_whitespace(img: &GrayImage, margin: u32) -> (out: GrayImage)
    requires
        trim_fits(img@, margin),
    ensures
        out@ == trim_spec(img@, margin),
{
    let ghost r = img@;
    match img.dark_bounds() {
        None => img.duplicate(),
        Some((min_x, min_y, max_x, max_y)) => {
            proof {
                lemma_dark_box_witnesses(r, (min_x, min_y, max_x, max_y));
            }
            let w = img.width();
            let h = img.height();
            let x = if min_x >= margin { min_x - margin } else { 0 };
            let y = if min_y >= margin { min_y - margin } else { 0 };
            let want_w = max_x - min_x + 1 + margin * 2;
            let want_h = max_y - min_y + 1 + margin * 2;
            let crop_w = if want_w <= w - x { want_w } else { w - x };
            let crop_h = if want_h <= h - y { want_h } else { h - y };
            img.crop(x, y, crop_w, crop_h)
        },
    }
}

/// Trimming keeps every dark pixel: it reappears in the trimmed image, moved
/// by the corner at which the image was cut.
pub proof fn lemma_trim_keeps_dark_pixels(r: Raster<u8>, margin: u32, x: int, y: int)
    requires
        r.is_shaped(),
        trim_fits(r, margin),
        dark_at(r, x, y),
    ensures
        ({
            let t = trim_spec(r, margin);
            let o = trim_origin(r, margin);
            &&& 0 <= x - o.0 < t.width
            &&& 0 <= y - o.1 < t.height
            &&& t.pixel(x - o.0, y - o.1) == r.pixel(x, y)
        }),
{
    assert(exists|px: int, py: int| dark_at(r, px, py));
    let b = choose|b: (u32, u32, u32, u32)| is_dark_box(r, b);
    assert(is_dark_box(r, b)) by {
        lemma_dark_box_exists(r);
    }
    let t = trim_spec(r, margin);
    let o = trim_origin(r, margin);
    assert(dark_bounds(r) == Some(b));
    assert(b.0 <= x <= b.2 && b.1 <= y <= b.3);
    lemma_dark_box_witnesses(r, b);
    assert(t.rows[y - o.1] == r.rows[o.1 + (y - o.1)].subrange(o.0, t.width + o.0));
}

/// Whether `out` is an image that `preprocess` can hand to the recognizer for
/// threshold `t`: the image thresholded and inverted, and trimmed with a margin
/// of 5; where fewer than 30 rows remain, scaled up with the Lanczos3 filter to
/// three times that size in each direction (the resampled values depend on the
/// machine's floating-point `sin`, so only the size is fixed).
pub open spec fn preprocess_outcome(r: Raster<u8>, t: u8, out: Raster<u8>) -> bool {
    let tr = trim_spec(threshold_spec(r, t), trim_margin());
    if tr.height < 30 {
        &&& out.width == 3 * tr.width
        &&& out.height == 3 * tr.height
        &&& out.is_shaped()
    } else {
        out == tr
    }
}

/// The inputs on which `preprocess` stays within machine arithmetic: trimming
/// fits, and an image to be scaled up has a width whose triple is a `u32` and
/// a scaled size that fits in memory.
pub open spec fn preprocess_fits(r: Raster<u8>, t: u8) -> bool {
    let th = threshold_spec(r, t);
    let tr = trim_spec(th, trim_margin());
    &&& trim_fits(th, trim_margin())
    &&& tr.height < 30 ==> 3 * tr.width <= u32::MAX && (3 * tr.width) * (3 * tr.height)
        <= usize::MAX
}

/// Preprocess a grayscale image for OCR: binary threshold, trim, and upscale.
pub fn preprocess(img: &GrayImage, threshold: u8) -> (out: GrayImage)
    requires
        preprocess_fits(img@, threshold),
    ensures
        preprocess_outcome(img@, threshold, out@),
{
    // Binary threshold + invert: light text on dark background becomes
    // dark text on white background, which the recognizer reads more reliably.
    let processed = img.threshold_inverted(threshold);
    // Trim surrounding whitespace so single digits aren't lost in a wide frame
    let processed = trim_whitespace(&processed, 5);
    // Upscale 3x if text height is small
    if processed.height() < 30 {
        processed.resize_lanczos3(processed.width() * 3, processed.height() * 3)
    } else {
        processed
    }
}

/// Whether `preprocess` can run on `img` with threshold `t`.
pub fn fits_preprocess(img: &GrayImage, t: u8) -> (ok: bool)
    ensures
        ok == preprocess_fits(img@, t),
{
    let th = img.threshold_inverted(t);
    let trim_ok = match th.dark_bounds() {
        Some((min_x, min_y, max_x, max_y)) => {
            proof {
                lemma_dark_box_witnesses(th@, (min_x, min_y, max_x, max_y));
            }
            (max_x - min_x) as u64 + 11 <= 4294967295 && (max_y - min_y) as u64 + 11 <= 4294967295
        },
        None => th.width() > 0 || th.height() == 0,
    };
    if !trim_ok {
        return false;
    }
    let tr = trim_whitespace(&th, 5);
    if tr.height() < 30 {
        let w3 = 3 * (tr.width() as u64);
        let h3 = 3 * (tr.height() as u64);
        assert((w3 as u128) * (h3 as u128) <= 0x1_0000_0000_0000_0000_0000) by (nonlinear_arith)
            requires
                w3 < 0x4_0000_0000,
                h3 < 0x4_0000_0000,
        ;
        w3 <= 4294967295 && (w3 as u128) * (h3 as u128) <= usize::MAX as u128
    } else {
        true
    }
}

/// Preprocesses the image with the threshold of attempt `attempt` and encodes
/// the result as PNG, ready for the recognizer: what comes back is the encoding
/// of an image that preprocessing can give.
pub fn ocr_input(img: &GrayImage, attempt: usize) -> (png: Option<Vec<u8>>)
    requires
        attempt < 3,
        preprocess_fits(img@, thresholds()[attempt as int]),
    ensures
        exists|p: Raster<u8>|
            {
                &&& preprocess_outcome(img@, thresholds()[attempt as int], p)
                &&& match png {
                    Some(bytes) => png_encoding(p.width, p.height, flatten_rows(p.rows)) == Some(
                        bytes@,
                    ),
                    None => png_encoding(p.width, p.height, flatten_rows(p.rows)) is None,
                }
            },
{
    let processed = preprocess(img, threshold_at(attempt));
    let png = processed.encode_png();
    assert(preprocess_outcome(img@, thresholds()[attempt as int], processed@));
    png
}

/// The CS value in the recognizer's text: the text trimmed of whitespace,
/// read as a decimal `i64`.
pub open spec fn ocr_text_value(text: Seq<char>) -> Option<i64> {
    parse_i64_spec(trim(text))
}

/// Reads the recognizer's text as a CS value: trimmed, non-empty, and a
/// decimal `i64`.
pub fn parse_ocr_text(text: &str) -> (cs: Option<i64>)
    ensures
        cs == ocr_text_value(text@),
{
    let v = chars_of(text);
    let (a, b) = trim_range(&v, 0, v.len());
    assert(v@.subrange(0, v@.len() as int) =~= text@);
    if a == b {
        return None;
    }
    parse_i64_range(&v, a, b)
}

/// Where a CS reading stands: the attempt whose image is to be recognized
/// next, or the outcome.
#[derive(Clone, Copy, Debug, PartialEq, Eq, Structural)]
pub enum OcrStep {
    Attempt(usize),
    Finished(Option<i64>),
}

/// A reading starts with the first threshold.
pub fn read_cs_start() -> (step: OcrStep)
    ensures
        step == OcrStep::Attempt(0),
{
    OcrStep::Attempt(0)
}

/// The step after attempt `attempt` given the recognizer's text (`None` where
/// no text came back, because the image could not be encoded or recognized).
pub open spec fn next_step_spec(attempt: int, text: Option<Seq<char>>) -> OcrStep {
    let value = match text {
        Some(t) => ocr_text_value(t),
        None => None,
    };
    match value {
        Some(cs) => OcrStep::Finished(Some(cs)),
        None => if attempt + 1 < attempt_count() {
            OcrStep::Attempt((attempt + 1) as usize)
        } else {
            OcrStep::Finished(None)
        },
    }
}

/// Decides what follows attempt `attempt`: a text that reads as a number ends
/// the reading with that number; otherwise the next threshold is tried, and
/// after the last one the reading ends without a value.
pub fn read_cs_next(attempt: usize, text: Option<&str>) -> (step: OcrStep)
    requires
        attempt < 3,
    ensures
        step == next_step_spec(
            attempt as int,
            match text {
                Some(t) => Some(t@),
                None => None,
            },
        ),
{
    let value = match text {
        Some(t) => parse_ocr_text(t),
        None => None,
    };
    match value {
        Some(cs) => OcrStep::Finished(Some(cs)),
        None => if attempt + 1 < 3 {
            OcrStep::Attempt(attempt + 1)
        } else {
            OcrStep::Finished(None)
        },
    }
}

/// The outcome of a reading whose attempts return the texts `texts` in turn,
/// from attempt `k` on.
pub open spec fn reading_outcome(k: int, texts: Seq<Option<Seq<char>>>) -> Option<i64>
    decreases attempt_count() - k,
{
    if k < 0 || k >= attempt_count() {
        None
    } else {
        match next_step_spec(k, texts[k]) {
            OcrStep::Finished(v) => v,
            OcrStep::Attempt(j) => reading_outcome(k + 1, texts),
        }
    }
}

/// The first text, in the order of the thresholds, that reads as a number.
pub open spec fn first_value(k: int, texts: Seq<Option<Seq<char>>>) -> Option<i64>
    decreases attempt_count() - k,
{
    if k < 0 || k >= attempt_count() {
        None
    } else {
        match texts[k] {
            Some(t) => match ocr_text_value(t) {
                Some(v) => Some(v),
                None => first_value(k + 1, texts),
            },
            None => first_value(k + 1, texts),
        }
    }
}

/// A reading that starts at the first threshold and follows `read_cs_next`
/// ends with the value of the first threshold whose text reads as a number,
/// and with none if no text does.
pub proof fn lemma_reading_takes_first_value(texts: Seq<Option<Seq<char>>>, k: int)
    requires
        0 <= k,
    ensures
        reading_outcome(k, texts) == first_value(k, texts),
    decreases attempt_count() - k,
{
    if k < attempt_count() {
        lemma_reading_takes_first_value(texts, k + 1);
    }
}

/// An image with columns and no dark pixel is trimmed to a copy of itself, at
/// any margin.
pub proof fn lemma_trim_light_image_is_copy(r: Raster<u8>, margin: u32)
    requires
        r.width > 0,
        forall|x: int, y: int| !dark_at(r, x, y),
    ensures
        trim_fits(r, margin),
        trim_spec(r, margin) == r,
{
}

/// An image with a dark pixel has a tight box around its dark pixels.
pub proof fn lemma_dark_box_exists(r: Raster<u8>)
    requires
        exists|x: int, y: int| dark_at(r, x, y),
    ensures
        exists|b: (u32, u32, u32, u32)| is_dark_box(r, b),
{
    let (x0, y0) = choose|x: int, y: int| dark_at(r, x, y);
    let (a, ay) = lemma_min_dark_x(r, x0, y0);
    let (cx, c) = lemma_min_dark_y(r, x0, y0);
    let (d, dy) = lemma_max_dark_x(r, x0, y0);
    let (ex, e) = lemma_max_dark_y(r, x0, y0);
    let b = (a as u32, c as u32, d as u32, e as u32);
    assert(dark_at(r, b.0 as int, ay));
    assert(dark_at(r, cx, b.1 as int));
    assert(dark_at(r, b.2 as int, dy));
    assert(dark_at(r, ex, b.3 as int));
    assert(is_dark_box(r, b));
}

/// The leftmost dark column, with a dark pixel in it.
proof fn lemma_min_dark_x(r: Raster<u8>, x0: int, y0: int) -> (m: (int, int))
    requires
        dark_at(r, x0, y0),
    ensures
        dark_at(r, m.0, m.1),
        forall|x: int, y: int| dark_at(r, x, y) ==> m.0 <= x,
    decreases x0,
{
    if exists|x: int, y: int| x < x0 && dark_at(r, x, y) {
        let (x1, y1) = choose|x: int, y: int| x < x0 && dark_at(r, x, y);
        lemma_min_dark_x(r, x1, y1)
    } else {
        (x0, y0)
    }
}

/// The topmost dark row, with a dark pixel in it.
proof fn lemma_min_dark_y(r: Raster<u8>, x0: int, y0: int) -> (m: (int, int))
    requires
        dark_at(r, x0, y0),
    ensures
        dark_at(r, m.0, m.1),
        forall|x: int, y: int| dark_at(r, x, y) ==> m.1 <= y,
    decreases y0,
{
    if exists|x: int, y: int| y < y0 && dark_at(r, x, y) {
        let (x1, y1) = choose|x: int, y: int| y < y0 && dark_at(r, x, y);
        lemma_min_dark_y(r, x1, y1)
    } else {
        (x0, y0)
    }
}

/// The rightmost dark column, with a dark pixel in it.
proof fn lemma_max_dark_x(r: Raster<u8>, x0: int, y0: int) -> (m: (int, int))
    requires
        dark_at(r, x0, y0),
    ensures
        dark_at(r, m.0, m.1),
        forall|x: int, y: int| dark_at(r, x, y) ==> x <= m.0,
    decreases r.width - x0,
{
    if exists|x: int, y: int| x > x0 && dark_at(r, x, y) {
        let (x1, y1) = choose|x: int, y: int| x > x0 && dark_at(r, x, y);
        lemma_max_dark_x(r, x1, y1)
    } else {
        (x0, y0)
    }
}

/// The bottom dark row, with a dark pixel in it.
proof fn lemma_max_dark_y(r: Raster<u8>, x0: int, y0: int) -> (m: (int, int))
    requires
        dark_at(r, x0, y0),
    ensures
        dark_at(r, m.0, m.1),
        forall|x: int, y: int| dark_at(r, x, y) ==> y <= m.1,
    decreases r.height - y0,
{
    if exists|x: int, y: int| y > y0 && dark_at(r, x, y) {
        let (x1, y1) = choose|x: int, y: int| y > y0 && dark_at(r, x, y);
        lemma_max_dark_y(r, x1, y1)
    } else {
        (x0, y0)
    }
}

/// The counter's digits read as the number they spell, whatever whitespace
/// the recognizer puts around them (such as the final line break), `0`
/// included; and that number ends the reading at once, at any attempt.
pub proof fn lemma_digits_read_as_their_value(ws1: Seq<char>, d: Seq<char>, ws2: Seq<char>, attempt: int)
    requires
        forall|i: int| 0 <= i < ws1.len() ==> char_is_whitespace(#[trigger] ws1[i]),
        forall|i: int| 0 <= i < ws2.len() ==> char_is_whitespace(#[trigger] ws2[i]),
        d.len() > 0,
        all_ascii_digits(d),
        decimal_value(d) <= i64::MAX,
    ensures
        ocr_text_value(ws1 + d + ws2) == Some(decimal_value(d) as i64),
        next_step_spec(attempt, Some(ws1 + d + ws2)) == OcrStep::Finished(Some(decimal_value(d) as i64)),
{
    assert forall|i: int| 0 <= i < d.len() implies !char_is_whitespace(#[trigger] d[i]) by {
        assert('0' <= d[i] <= '9');
    }
    lemma_trim_surrounded(ws1, d, ws2);
    lemma_parse_i64_digits(d);
}

/// A text of whitespace alone (an empty text included) gives no value, and
/// the reading moves on to the next threshold, or ends without a value after
/// the last.
pub proof fn lemma_blank_text_reads_nothing(ws: Seq<char>, attempt: int)
    requires
        forall|i: int| 0 <= i < ws.len() ==> char_is_whitespace(#[trigger] ws[i]),
        0 <= attempt < 3,
    ensures
        ocr_text_value(ws) is None,
        next_step_spec(attempt, Some(ws)) == (if attempt < 2 {
            OcrStep::Attempt((attempt + 1) as usize)
        } else {
            OcrStep::Finished(None)
        }),
{
    lemma_trim_start_all_whitespace(ws);
    assert(trim_end(Seq::<char>::empty()) == Seq::<char>::empty());
}

/// A value is read only from a trimmed text that is a run of ASCII digits,
/// with at most one `+` or `-` before it, and the value is the number those
/// digits spell, negated after a `-`.
pub proof fn lemma_value_comes_from_digits(text: Seq<char>, n: i64)
    requires
        ocr_text_value(text) == Some(n),
    ensures
        ({
            let u = trim(text);
            let signed = u[0] == '+' || u[0] == '-';
            let d = if signed { u.drop_first() } else { u };
            &&& u.len() > 0
            &&& d.len() > 0
            &&& all_ascii_digits(d)
            &&& n == if u[0] == '-' { -(decimal_value(d) as int) } else { decimal_value(d) as int }
        }),
{
}

} // verus!
