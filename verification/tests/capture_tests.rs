use lol_live::capture::{crop_cs_region, draw_region_outline, primary_monitor_index};
use lol_live::raster::{Rgba, RgbaImage};
use lol_live::types::CsRegion;

fn screenshot(w: u32, h: u32) -> RgbaImage {
    let mut bytes = Vec::new();
    for y in 0..h {
        for x in 0..w {
            let v = ((x + y) % 2) as u8 * 255;
            bytes.extend_from_slice(&[v, v, v, 255]);
        }
    }
    RgbaImage::from_raw(w, h, bytes).unwrap()
}

#[test]
fn crop_cs_region_cuts_and_converts() {
    let img = screenshot(8, 6);
    let g = crop_cs_region(&img, &CsRegion { x: 2, y: 1, width: 3, height: 2 });
    assert_eq!((g.width(), g.height()), (3, 2));
    assert_eq!(g.to_raw(), vec![255, 0, 255, 0, 255, 0]);
}

#[test]
fn crop_cs_region_beyond_the_screen() {
    let img = screenshot(8, 6);
    let g = crop_cs_region(&img, &CsRegion { x: 6, y: 5, width: 10, height: 10 });
    assert_eq!((g.width(), g.height()), (2, 1));
}

#[test]
fn outline_clipped_to_screen() {
    let img = screenshot(6, 6);
    let o = draw_region_outline(&img, &CsRegion { x: 3, y: 2, width: 10, height: 1 });
    let green = Rgba { r: 0, g: 255, b: 0, a: 255 };
    assert_eq!(o.get_pixel(5, 2), green);
    assert_eq!(o.get_pixel(5, 3), green);
    assert_eq!(o.get_pixel(3, 3), green);
    assert_eq!(o.get_pixel(4, 4), img.get_pixel(4, 4));
}

#[test]
fn outline_outside_the_screen_changes_nothing() {
    let img = screenshot(4, 4);
    let o = draw_region_outline(&img, &CsRegion { x: 10, y: 10, width: 2, height: 2 });
    assert_eq!(o.to_raw(), img.to_raw());
}

#[test]
fn primary_monitor_is_the_first_primary() {
    assert_eq!(primary_monitor_index(&vec![false, true, true]), Some(1));
    assert_eq!(primary_monitor_index(&vec![false, false]), None);
    assert_eq!(primary_monitor_index(&vec![]), None);
}

#[test]
fn counter_crop_has_the_region_size() {
    let img = screenshot(640, 360);
    let region = lol_live::detect::detect_cs_region(640, 360);
    let g = crop_cs_region(&img, &region);
    assert_eq!((g.width(), g.height()), (region.width, region.height));
    assert_eq!((region.x, region.y, region.width, region.height), (592, 1, 16, 6));
}
