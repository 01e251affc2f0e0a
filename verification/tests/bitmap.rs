use texture_atlas::bitmap::AtlasBitmap;
use texture_atlas::color::Color;

#[test]
fn new_bitmap_is_blank_and_has_its_size() {
    let bitmap = AtlasBitmap::new(3, 2).unwrap();
    assert_eq!(bitmap.width(), 3);
    assert_eq!(bitmap.height(), 2);
    for y in 0..2 {
        for x in 0..3 {
            assert_eq!(bitmap.pixel(x, y), Some(Color { r: 0, g: 0, b: 0, a: 0 }));
        }
    }
}

#[test]
fn bitmap_that_cannot_be_allocated_is_refused() {
    assert!(AtlasBitmap::new(u32::MAX, u32::MAX).is_none());
}

#[test]
fn bitmap_without_texels_is_allowed() {
    let bitmap = AtlasBitmap::new(0, 7).unwrap();
    assert_eq!(bitmap.width(), 0);
    assert_eq!(bitmap.height(), 7);
    assert_eq!(bitmap.pixel(0, 0), None);
    assert!(bitmap.to_rgba_bytes().is_empty());
}

#[test]
fn put_changes_one_texel() {
    let mut bitmap = AtlasBitmap::new(3, 3).unwrap();
    let ink = Color { r: 1, g: 2, b: 3, a: 4 };
    bitmap.put(2, 1, ink);
    for y in 0..3 {
        for x in 0..3 {
            let expected = if (x, y) == (2, 1) { ink } else { Color { r: 0, g: 0, b: 0, a: 0 } };
            assert_eq!(bitmap.pixel(x, y), Some(expected));
        }
    }
    assert_eq!(bitmap.width(), 3);
    assert_eq!(bitmap.height(), 3);
}

#[test]
fn pixel_outside_the_bitmap_is_none() {
    let bitmap = AtlasBitmap::new(3, 2).unwrap();
    assert_eq!(bitmap.pixel(3, 0), None);
    assert_eq!(bitmap.pixel(0, 2), None);
    assert_eq!(bitmap.pixel(u32::MAX, u32::MAX), None);
}

#[test]
fn bytes_hold_red_green_blue_alpha_in_reading_order() {
    let mut bitmap = AtlasBitmap::new(2, 2).unwrap();
    bitmap.put(1, 0, Color { r: 1, g: 2, b: 3, a: 4 });
    bitmap.put(0, 1, Color { r: 5, g: 6, b: 7, a: 8 });
    assert_eq!(
        bitmap.to_rgba_bytes(),
        vec![0, 0, 0, 0, 1, 2, 3, 4, 5, 6, 7, 8, 0, 0, 0, 0]
    );
}

#[test]
fn bytes_are_those_of_the_image_crate() {
    let mut bitmap = AtlasBitmap::new(3, 2).unwrap();
    let mut twin = image::RgbaImage::new(3, 2);
    for y in 0..2u32 {
        for x in 0..3u32 {
            let ink = Color { r: x as u8, g: y as u8, b: 9, a: 255 };
            bitmap.put(x, y, ink);
            twin.put_pixel(x, y, image::Rgba([ink.r, ink.g, ink.b, ink.a]));
        }
    }
    assert_eq!(bitmap.to_rgba_bytes(), twin.into_raw());
}

#[test]
fn allocation_is_possible_up_to_the_largest_vector() {
    assert!(AtlasBitmap::can_allocate(0, 0));
    assert!(AtlasBitmap::can_allocate(4096, 8192));
    assert!(AtlasBitmap::can_allocate(u32::MAX, 0));
    assert!(!AtlasBitmap::can_allocate(u32::MAX, u32::MAX));
    let limit = isize::MAX as u128;
    for (width, height) in [(1u32 << 31, 1u32 << 30), (1 << 30, 1 << 30), (1 << 31, 1 << 31)] {
        let bytes = 4 * (width as u128) * (height as u128);
        assert_eq!(AtlasBitmap::can_allocate(width, height), bytes <= limit);
    }
}
