use pullauta::palette::{Palette, PaletteColor, PaletteColorEnum, PalettedImage};
use pullauta::raster::GrayRaster;
use pullauta::util::expand_palette;

#[test]
fn named_colors_have_fixed_indices() {
    assert_eq!(PaletteColorEnum::Transparent.to_color(), PaletteColor(0));
    assert_eq!(PaletteColorEnum::BackgroundWhite.to_color(), PaletteColor(1));
    assert_eq!(PaletteColorEnum::Black.to_color(), PaletteColor(2));
    assert_eq!(PaletteColorEnum::Yellow2.to_color(), PaletteColor(3));
    assert_eq!(PaletteColorEnum::Blue.to_color(), PaletteColor(4));
    assert_eq!(PaletteColorEnum::Undergrowth.to_color(), PaletteColor(5));
    assert_eq!(PaletteColorEnum::GreenShade(0).to_color(), PaletteColor(16));
    assert_eq!(PaletteColorEnum::GreenShade(15).to_color(), PaletteColor(31));
}

#[test]
fn blending_skips_transparent_and_white() {
    let mut c = PaletteColor(7);
    c.blend(&PaletteColor(0));
    assert_eq!(c, PaletteColor(7));
    c.blend(&PaletteColor(1));
    assert_eq!(c, PaletteColor(7));
    c.blend(&PaletteColor(2));
    assert_eq!(c, PaletteColor(2));
}

#[test]
fn palette_entries() {
    let shades = vec![[10, 20, 10, 255], [30, 40, 30, 255]];
    let palette = Palette::new(&shades);
    assert_eq!(palette.get(PaletteColorEnum::Transparent), [255, 255, 255, 0]);
    assert_eq!(palette.get(PaletteColorEnum::BackgroundWhite), [255, 255, 255, 255]);
    assert_eq!(palette.get(PaletteColorEnum::Black), [0, 0, 0, 255]);
    assert_eq!(palette.get(PaletteColorEnum::Yellow2), [255, 219, 166, 255]);
    assert_eq!(palette.get(PaletteColorEnum::Blue), [29, 190, 255, 255]);
    assert_eq!(palette.get(PaletteColorEnum::Undergrowth), [64, 121, 0, 255]);
    assert_eq!(palette.get(PaletteColorEnum::GreenShade(0)), [10, 20, 10, 255]);
    assert_eq!(palette.get(PaletteColorEnum::GreenShade(1)), [30, 40, 30, 255]);
    assert_eq!(palette.get(PaletteColorEnum::GreenShade(2)), [0, 0, 0, 0]);
    let (plte, trns) = palette.png_tables();
    assert_eq!(plte.len(), 768);
    assert_eq!(trns.len(), 256);
    assert_eq!(&plte[0..6], &[255, 255, 255, 255, 255, 255]);
    assert_eq!(&plte[9..12], &[255, 219, 166]);
    assert_eq!(&plte[48..51], &[10, 20, 10]);
    assert_eq!(&trns[0..6], &[0, 255, 255, 255, 255, 255]);
    assert_eq!(trns[6], 0);
}

#[test]
fn palette_set_changes_one_entry() {
    let mut palette = Palette::new(&vec![]);
    palette.set(PaletteColorEnum::Blue, [1, 2, 3, 4]);
    assert_eq!(palette.get(PaletteColorEnum::Blue), [1, 2, 3, 4]);
    assert_eq!(palette.get(PaletteColorEnum::Black), [0, 0, 0, 255]);
}

fn indices(img: &PalettedImage) -> Vec<u8> {
    img.pixels().iter().map(|p| p.0).collect()
}

#[test]
fn new_image_is_filled() {
    let img = PalettedImage::new(3, 2, PaletteColor(3));
    assert_eq!(img.width(), 3);
    assert_eq!(img.height(), 2);
    assert_eq!(img.dimensions(), (3, 2));
    assert_eq!(indices(&img), vec![3; 6]);
    assert_eq!(img.to_indices(), vec![3; 6]);
}

#[test]
fn drawing_skips_transparent_and_white() {
    let mut img = PalettedImage::new(2, 2, PaletteColor(3));
    img.draw_pixel(1, 0, PaletteColor(0));
    img.draw_pixel(1, 0, PaletteColor(1));
    assert_eq!(img.get_pixel(1, 0), PaletteColor(3));
    img.draw_pixel(1, 0, PaletteColor(2));
    assert_eq!(img.get_pixel(1, 0), PaletteColor(2));
    assert_eq!(indices(&img), vec![3, 2, 3, 3]);
}

#[test]
fn filled_rect_is_clipped() {
    let mut img = PalettedImage::new(4, 3, PaletteColor(2));
    img.draw_filled_rect(2, -1, 5, 2, PaletteColor(0));
    assert_eq!(indices(&img), vec![2, 2, 0, 0, 2, 2, 2, 2, 2, 2, 2, 2]);
}

#[test]
fn overlay_blends_where_top_lies() {
    let mut bottom = PalettedImage::new(3, 3, PaletteColor(2));
    let mut top = PalettedImage::new(2, 2, PaletteColor(4));
    top.draw_pixel(0, 0, PaletteColor(5));
    let mut see_through = PalettedImage::new(2, 1, PaletteColor(0));
    see_through.draw_pixel(1, 0, PaletteColor(3));
    let white = PalettedImage::new(1, 1, PaletteColor(1));
    bottom.overlay(&top, 2, -1);
    assert_eq!(indices(&bottom), vec![2, 2, 4, 2, 2, 2, 2, 2, 2]);
    bottom.overlay(&see_through, 0, 2);
    assert_eq!(indices(&bottom), vec![2, 2, 4, 2, 2, 2, 2, 3, 2]);
    // background white is a color like any other on top
    bottom.overlay(&white, 1, 1);
    assert_eq!(indices(&bottom), vec![2, 2, 4, 2, 1, 2, 2, 3, 2]);
    // far away: nothing changes
    bottom.overlay(&top, 10, 10);
    bottom.overlay(&top, -5, 0);
    assert_eq!(indices(&bottom), vec![2, 2, 4, 2, 1, 2, 2, 3, 2]);
}

#[test]
fn median_filter_keeps_size() {
    let mut img = PalettedImage::new(3, 3, PaletteColor(2));
    img.draw_pixel(1, 1, PaletteColor(9));
    let filtered = img.median_filter(1, 1);
    assert_eq!(filtered.dimensions(), (3, 3));
    assert_eq!(indices(&filtered), vec![2; 9]);
}

#[test]
fn test_expand_palette() {
    let img = GrayRaster::from_raw(2, 2, vec![0, 1, 2, 3]).unwrap();
    let palette = [[255u8, 0, 0], [0, 255, 0], [0, 0, 255], [255, 255, 0]];

    let expanded = expand_palette(&img, &palette);
    let (w, _) = img.dimensions();
    let pixel = |x: u32, y: u32| expanded[(y * w + x) as usize];
    assert_eq!(pixel(0, 0), [255, 0, 0]);
    assert_eq!(pixel(1, 0), [0, 255, 0]);
    assert_eq!(pixel(0, 1), [0, 0, 255]);
    assert_eq!(pixel(1, 1), [255, 255, 0]);
}

#[test]
fn raw_images_need_enough_samples() {
    assert!(GrayRaster::from_raw(2, 2, vec![0, 1, 2]).is_none());
    let img = GrayRaster::from_raw(1, 2, vec![7, 8, 9]).unwrap();
    assert_eq!(img.samples(), vec![7, 8, 9]);
    assert_eq!(expand_palette(&img, &[0u8, 0, 0, 0, 0, 0, 0, 10, 20, 30]), vec![10, 20]);
}
