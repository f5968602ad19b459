//! What the library does with a screenshot: cut out the CS counter, mark the
//! region for a debug picture, and pick the screen to capture.
use vstd::prelude::*;
use crate::raster::{crop_spec, luma_spec, outline_spec, GrayImage, Raster, Rgba, RgbaImage};
use crate::types::CsRegion;

verus! {

/// Crop the CS region from a full screenshot and convert to grayscale.
pub fn crop_cs_region(img: &RgbaImage, region: &CsRegion) -> (gray: GrayImage)
    ensures
        gray@ == luma_spec(crop_spec(img@, region.x, region.y, region.width, region.height)),
{
    let cropped = img.crop(region.x, region.y, region.width, region.height);
    cropped.to_luma()
}

/// The colour of the region's outline: bright green.
pub open spec fn highlight_color() -> Rgba {
    Rgba { r: 0, g: 255, b: 0, a: 255 }
}

/// The inputs on which the outline can be drawn: a non-empty screenshot, a
/// region whose far edges are representable, and a corner that lies either
/// inside the screenshot on both axes or outside it on both (with one
/// coordinate in and the other out, a pixel outside the image would be painted).
pub open spec fn outline_fits(img: Raster<Rgba>, region: CsRegion) -> bool {
    &&& img.width > 0
    &&& img.height > 0
    &&& region.x + region.width <= u32::MAX
    &&& region.y + region.height <= u32::MAX
    &&& (region.x < img.width) == (region.y < img.height)
}

/// The corners `(x1, y1, x2, y2)` of the outline: the region's, with the far
/// corner moved back to the screenshot's last row and column where it lies beyond.
pub open spec fn outline_corners(img: Raster<Rgba>, region: CsRegion) -> (u32, u32, u32, u32) {
    let x2 = if region.x + region.width <= img.width - 1 {
        region.x + region.width
    } else {
        img.width - 1
    };
    let y2 = if region.y + region.height <= img.height - 1 {
        region.y + region.height
    } else {
        img.height - 1
    };
    (region.x, region.y, x2 as u32, y2 as u32)
}

/// A copy of the screenshot with a bright rectangle drawn around the CS region.
pub fn draw_region_outline(img: &RgbaImage, region: &CsRegion) -> (out: RgbaImage)
    requires
        outline_fits(img@, *region),
    ensures
        ({
            let c = outline_corners(img@, *region);
            out@ == outline_spec(img@, c.0, c.1, c.2, c.3, highlight_color())
        }),
{
    let color = Rgba { r: 0, g: 255, b: 0, a: 255 };
    let x1 = region.x;
    let y1 = region.y;
    let far_x = region.x + region.width;
    let far_y = region.y + region.height;
    let x2 = if far_x <= img.width() - 1 { far_x } else { img.width() - 1 };
    let y2 = if far_y <= img.height() - 1 { far_y } else { img.height() - 1 };
    img.with_outline(x1, y1, x2, y2, color)
}

/// The first monitor that reports itself primary, given each monitor's answer
/// (`false` where it could not tell).
pub fn primary_monitor_index(is_primary: &Vec<bool>) -> (idx: Option<usize>)
    ensures
        match idx {
            Some(i) => i < is_primary@.len() && is_primary@[i as int] && forall|k: int|
                0 <= k < i ==> !is_primary@[k],
            None => forall|k: int| 0 <= k < is_primary@.len() ==> !is_primary@[k],
        },
{
    let mut i: usize = 0;
    while i < is_primary.len()
        invariant
            i <= is_primary@.len(),
            forall|k: int| 0 <= k < i ==> !is_primary@[k],
        decreases is_primary@.len() - i,
    {
        if is_primary[i] {
            return Some(i);
        }
        i += 1;
    }
    None
}

/// Cropping a region that lies inside the screenshot keeps the region's size.
pub proof fn lemma_crop_inside_keeps_size(img: Raster<Rgba>, region: CsRegion)
    requires
        region.x + region.width <= img.width,
        region.y + region.height <= img.height,
    ensures
        crop_spec(img, region.x, region.y, region.width, region.height).width == region.width,
        crop_spec(img, region.x, region.y, region.width, region.height).height == region.height,
{
}

} // verus!
