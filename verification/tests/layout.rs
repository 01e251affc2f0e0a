use texture_atlas::color::Color;
use texture_atlas::layout::{pack_rows, Row};
use texture_atlas::source::SourceImage;

fn block(name: &str, width: u32, height: u32) -> SourceImage {
    let texel = Color { r: 9, g: 9, b: 9, a: 255 };
    SourceImage::new(name.to_string(), width, height, vec![texel; (width * height) as usize])
        .unwrap()
}

fn shape(row: &Row) -> (usize, u32, u32, Vec<u32>) {
    (row.first, row.top, row.height, row.ends.clone())
}

#[test]
fn rows_take_images_while_they_fit() {
    let order = vec![
        block("a", 4, 3),
        block("b", 5, 3),
        block("c", 3, 2),
        block("d", 6, 2),
        block("e", 2, 1),
    ];
    let layout = pack_rows(&order, 10, 10);
    assert_eq!(layout.rows.len(), 3);
    assert_eq!(shape(&layout.rows[0]), (0, 0, 3, vec![4, 9]));
    assert_eq!(shape(&layout.rows[1]), (2, 3, 2, vec![3, 9]));
    assert_eq!(shape(&layout.rows[2]), (4, 5, 1, vec![2]));
    assert_eq!(layout.placed, 5);
    assert!(!layout.overflow);
}

#[test]
fn row_is_filled_to_the_last_column() {
    let order = vec![block("a", 6, 2), block("b", 4, 2), block("c", 1, 2)];
    let layout = pack_rows(&order, 10, 10);
    assert_eq!(shape(&layout.rows[0]), (0, 0, 2, vec![6, 10]));
    assert_eq!(shape(&layout.rows[1]), (2, 2, 2, vec![1]));
}

#[test]
fn row_is_as_tall_as_its_first_image() {
    let order = vec![block("tall", 2, 5), block("short", 2, 1)];
    let layout = pack_rows(&order, 8, 8);
    assert_eq!(layout.rows.len(), 1);
    assert_eq!(shape(&layout.rows[0]), (0, 0, 5, vec![2, 4]));
}

#[test]
fn packing_stops_at_the_bottom_of_the_atlas() {
    let order = vec![
        block("r0", 4, 2),
        block("r1", 4, 2),
        block("r2", 4, 2),
        block("r3", 4, 2),
        block("r4", 4, 2),
    ];
    let layout = pack_rows(&order, 4, 4);
    assert_eq!(layout.rows.len(), 2);
    assert_eq!(layout.placed, 2);
    assert!(layout.overflow);
}

#[test]
fn atlas_that_is_just_filled_does_not_overflow() {
    let order = vec![block("r0", 4, 2), block("r1", 4, 2)];
    let layout = pack_rows(&order, 4, 4);
    assert_eq!(layout.rows.len(), 2);
    assert_eq!(layout.placed, 2);
    assert!(!layout.overflow);
}

#[test]
fn row_that_would_pass_the_bottom_is_not_started() {
    let order = vec![block("a", 2, 3), block("b", 2, 3)];
    let layout = pack_rows(&order, 2, 5);
    assert_eq!(layout.rows.len(), 1);
    assert_eq!(shape(&layout.rows[0]), (0, 0, 3, vec![2]));
    assert_eq!(layout.placed, 1);
    assert!(layout.overflow);
}

#[test]
fn image_wider_than_the_atlas_blocks_the_packing() {
    let order = vec![block("wide", 5, 2), block("small", 1, 1)];
    let layout = pack_rows(&order, 4, 5);
    assert_eq!(layout.rows.len(), 2);
    assert_eq!(shape(&layout.rows[0]), (0, 0, 2, Vec::new()));
    assert_eq!(shape(&layout.rows[1]), (0, 2, 2, Vec::new()));
    assert_eq!(layout.placed, 0);
    assert!(layout.overflow);
}

#[test]
fn no_images_no_rows() {
    let layout = pack_rows(&Vec::new(), 16, 16);
    assert!(layout.rows.is_empty());
    assert_eq!(layout.placed, 0);
    assert!(!layout.overflow);
}

#[test]
fn atlas_without_height_places_nothing() {
    let layout = pack_rows(&vec![block("a", 1, 1)], 16, 0);
    assert!(layout.rows.is_empty());
    assert!(layout.overflow);
}
