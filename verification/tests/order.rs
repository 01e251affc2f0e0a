use texture_atlas::color::Color;
use texture_atlas::order::sort_textures;
use texture_atlas::source::SourceImage;

fn plain(name: &str, width: u32, height: u32) -> SourceImage {
    let texel = Color { r: 1, g: 2, b: 3, a: 255 };
    SourceImage::new(name.to_string(), width, height, vec![texel; (width * height) as usize])
        .unwrap()
}

fn names_and_heights(order: &[SourceImage]) -> Vec<(String, u32)> {
    order.iter().map(|image| (image.name().clone(), image.height())).collect()
}

#[test]
fn sort_puts_the_tallest_first() {
    let order = sort_textures(vec![plain("low", 4, 2), plain("high", 4, 9), plain("mid", 4, 5)], 512);
    assert_eq!(
        names_and_heights(&order),
        vec![("high".to_string(), 9), ("mid".to_string(), 5), ("low".to_string(), 2)]
    );
}

#[test]
fn sort_keeps_the_given_order_within_one_height() {
    let order = sort_textures(
        vec![
            plain("b", 1, 3),
            plain("x", 1, 7),
            plain("a", 2, 3),
            plain("y", 1, 7),
            plain("c", 3, 3),
        ],
        512,
    );
    assert_eq!(
        names_and_heights(&order),
        vec![
            ("x".to_string(), 7),
            ("y".to_string(), 7),
            ("b".to_string(), 3),
            ("a".to_string(), 3),
            ("c".to_string(), 3),
        ]
    );
}

#[test]
fn sort_drops_what_is_taller_than_the_cutoff() {
    let order = sort_textures(
        vec![plain("at", 1, 512), plain("over", 1, 513), plain("huge", 1, 4000), plain("under", 1, 511)],
        512,
    );
    assert_eq!(
        names_and_heights(&order),
        vec![("at".to_string(), 512), ("under".to_string(), 511)]
    );
}

#[test]
fn sort_of_nothing_is_nothing() {
    assert!(sort_textures(Vec::new(), 512).is_empty());
}

#[test]
fn sort_with_cutoff_zero_keeps_nothing() {
    assert!(sort_textures(vec![plain("a", 1, 1), plain("b", 2, 2)], 0).is_empty());
}

#[test]
fn sort_keeps_the_texels_of_each_image() {
    let mut texels = Vec::new();
    for i in 0..6u8 {
        texels.push(Color { r: i, g: 10 + i, b: 20 + i, a: 255 });
    }
    let marked = SourceImage::new("marked".to_string(), 3, 2, texels.clone()).unwrap();
    let order = sort_textures(vec![plain("tall", 1, 4), marked], 16);
    assert_eq!(order[1].name(), "marked");
    assert_eq!(order[1].width(), 3);
    for y in 0..2u32 {
        for x in 0..3u32 {
            assert_eq!(order[1].pixel(x, y), Some(texels[(y * 3 + x) as usize]));
        }
    }
}

#[test]
fn image_needs_a_texel_for_each_position() {
    let texel = Color { r: 0, g: 0, b: 0, a: 0 };
    assert!(SourceImage::new("ok".to_string(), 2, 3, vec![texel; 6]).is_some());
    assert!(SourceImage::new("short".to_string(), 2, 3, vec![texel; 5]).is_none());
    assert!(SourceImage::new("long".to_string(), 2, 3, vec![texel; 7]).is_none());
    assert!(SourceImage::new("flat".to_string(), 2, 0, Vec::new()).is_none());
    assert!(SourceImage::new("thin".to_string(), 0, 2, Vec::new()).is_none());
}

#[test]
fn image_texels_are_read_scanline_by_scanline() {
    let mut texels = Vec::new();
    for i in 0..6u8 {
        texels.push(Color { r: i, g: 0, b: 0, a: 255 });
    }
    let image = SourceImage::new("grid".to_string(), 3, 2, texels).unwrap();
    assert_eq!(image.pixel(0, 0).unwrap().r, 0);
    assert_eq!(image.pixel(2, 0).unwrap().r, 2);
    assert_eq!(image.pixel(0, 1).unwrap().r, 3);
    assert_eq!(image.texel(2, 1).r, 5);
    assert_eq!(image.pixel(3, 0), None);
    assert_eq!(image.pixel(0, 2), None);
}
