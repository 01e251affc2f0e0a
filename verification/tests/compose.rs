use texture_atlas::bitmap::AtlasBitmap;
use texture_atlas::color::{Color, Resolved};
use texture_atlas::compose::{composite, is_paintable};
use texture_atlas::layout::{pack_rows, Row};
use texture_atlas::source::SourceImage;

const BLANK: Color = Color { r: 0, g: 0, b: 0, a: 0 };
const UNASSIGNED: Color = Color { r: 0, g: 0, b: 0, a: 255 };
const SLOT_EXHAUSTED: Color = Color { r: 255, g: 0, b: 255, a: 255 };
const INDEX_MISS: Color = Color { r: 255, g: 255, b: 0, a: 255 };
const VERTICAL_BOUNDS: Color = Color { r: 255, g: 0, b: 0, a: 255 };

fn texel_of(seed: u8, x: u32, y: u32) -> Color {
    Color { r: seed, g: x as u8, b: y as u8, a: 200 }
}

fn picture(name: &str, width: u32, height: u32, seed: u8) -> SourceImage {
    let mut texels = Vec::new();
    for y in 0..height {
        for x in 0..width {
            texels.push(texel_of(seed, x, y));
        }
    }
    SourceImage::new(name.to_string(), width, height, texels).unwrap()
}

fn painted(order: &Vec<SourceImage>, rows: &Vec<Row>, width: u32, height: u32) -> AtlasBitmap {
    let mut bitmap = AtlasBitmap::new(width, height).unwrap();
    assert!(is_paintable(order, rows, height));
    composite(order, rows, &mut bitmap);
    bitmap
}

#[test]
fn sentinels_have_their_colours() {
    assert_eq!(Resolved::Unassigned.color(), UNASSIGNED);
    assert_eq!(Resolved::SlotExhausted.color(), SLOT_EXHAUSTED);
    assert_eq!(Resolved::IndexMiss.color(), INDEX_MISS);
    assert_eq!(Resolved::VerticalBounds.color(), VERTICAL_BOUNDS);
    let texel = Color { r: 1, g: 2, b: 3, a: 4 };
    assert_eq!(Resolved::Sampled(texel).color(), texel);
}

#[test]
fn images_are_copied_texel_by_texel() {
    let order = vec![picture("a", 4, 3, 1), picture("b", 5, 3, 2), picture("c", 3, 2, 3)];
    let layout = pack_rows(&order, 10, 6);
    let bitmap = painted(&order, &layout.rows, 10, 6);
    for y in 0..3 {
        for x in 0..4 {
            assert_eq!(bitmap.pixel(x, y), Some(texel_of(1, x, y)));
        }
        for x in 0..5 {
            assert_eq!(bitmap.pixel(4 + x, y), Some(texel_of(2, x, y)));
        }
    }
    for y in 0..2 {
        for x in 0..3 {
            assert_eq!(bitmap.pixel(x, 3 + y), Some(texel_of(3, x, y)));
        }
    }
}

#[test]
fn scanline_past_the_last_slot_is_marked_once_and_then_unassigned() {
    let order = vec![picture("a", 4, 3, 1), picture("b", 5, 3, 2)];
    let layout = pack_rows(&order, 12, 6);
    let bitmap = painted(&order, &layout.rows, 12, 6);
    for y in 0..3 {
        assert_eq!(bitmap.pixel(8, y), Some(texel_of(2, 4, y)));
        assert_eq!(bitmap.pixel(9, y), Some(SLOT_EXHAUSTED));
        assert_eq!(bitmap.pixel(10, y), Some(UNASSIGNED));
        assert_eq!(bitmap.pixel(11, y), Some(UNASSIGNED));
    }
}

#[test]
fn row_that_fills_the_width_has_no_sentinel() {
    let order = vec![picture("a", 6, 2, 1), picture("b", 4, 2, 2)];
    let layout = pack_rows(&order, 10, 2);
    let bitmap = painted(&order, &layout.rows, 10, 2);
    for y in 0..2 {
        for x in 0..6 {
            assert_eq!(bitmap.pixel(x, y), Some(texel_of(1, x, y)));
        }
        for x in 0..4 {
            assert_eq!(bitmap.pixel(6 + x, y), Some(texel_of(2, x, y)));
        }
    }
}

#[test]
fn shorter_image_stands_on_the_bottom_of_its_row() {
    let order = vec![picture("tall", 4, 4, 1), picture("short", 3, 2, 2)];
    let layout = pack_rows(&order, 10, 6);
    let bitmap = painted(&order, &layout.rows, 10, 6);
    for x in 0..3 {
        assert_eq!(bitmap.pixel(4 + x, 0), Some(VERTICAL_BOUNDS));
        assert_eq!(bitmap.pixel(4 + x, 1), Some(VERTICAL_BOUNDS));
        assert_eq!(bitmap.pixel(4 + x, 2), Some(texel_of(2, x, 0)));
        assert_eq!(bitmap.pixel(4 + x, 3), Some(texel_of(2, x, 1)));
    }
    for y in 0..4 {
        assert_eq!(bitmap.pixel(7, y), Some(SLOT_EXHAUSTED));
        assert_eq!(bitmap.pixel(8, y), Some(UNASSIGNED));
    }
}

#[test]
fn what_lies_below_the_last_row_stays_as_it_was() {
    let order = vec![picture("a", 2, 2, 1)];
    let layout = pack_rows(&order, 4, 5);
    let mut bitmap = AtlasBitmap::new(4, 5).unwrap();
    let kept = Color { r: 11, g: 22, b: 33, a: 44 };
    bitmap.put(1, 1, kept);
    bitmap.put(3, 2, kept);
    bitmap.put(0, 4, kept);
    composite(&order, &layout.rows, &mut bitmap);
    assert_eq!(bitmap.pixel(1, 1), Some(texel_of(1, 1, 1)));
    assert_eq!(bitmap.pixel(3, 2), Some(kept));
    assert_eq!(bitmap.pixel(0, 4), Some(kept));
    assert_eq!(bitmap.pixel(0, 2), Some(BLANK));
    assert_eq!(bitmap.pixel(3, 4), Some(BLANK));
}

#[test]
fn rows_without_slots_are_unassigned_throughout() {
    let order = vec![picture("wide", 5, 2, 1)];
    let layout = pack_rows(&order, 4, 5);
    let bitmap = painted(&order, &layout.rows, 4, 5);
    for y in 0..4 {
        for x in 0..4 {
            assert_eq!(bitmap.pixel(x, y), Some(UNASSIGNED));
        }
    }
    for x in 0..4 {
        assert_eq!(bitmap.pixel(x, 4), Some(BLANK));
    }
}

#[test]
fn slot_list_cut_short_gives_the_exhausted_sentinel() {
    let order = vec![picture("a", 3, 2, 1), picture("b", 3, 2, 2)];
    let mut layout = pack_rows(&order, 8, 2);
    assert_eq!(layout.rows[0].ends, vec![3, 6]);
    layout.rows[0].ends.pop();
    let bitmap = painted(&order, &layout.rows, 8, 2);
    for y in 0..2 {
        for x in 0..3 {
            assert_eq!(bitmap.pixel(x, y), Some(texel_of(1, x, y)));
        }
        assert_eq!(bitmap.pixel(3, y), Some(SLOT_EXHAUSTED));
        for x in 4..8 {
            assert_eq!(bitmap.pixel(x, y), Some(UNASSIGNED));
        }
    }
}

#[test]
fn slot_without_an_image_gives_the_index_miss_sentinel() {
    let order = vec![picture("only", 2, 2, 1)];
    let rows = vec![Row { first: 0, top: 0, height: 2, ends: vec![2, 5] }];
    let bitmap = painted(&order, &rows, 8, 2);
    for y in 0..2 {
        for x in 0..2 {
            assert_eq!(bitmap.pixel(x, y), Some(texel_of(1, x, y)));
        }
        for x in 2..5 {
            assert_eq!(bitmap.pixel(x, y), Some(INDEX_MISS));
        }
        assert_eq!(bitmap.pixel(5, y), Some(SLOT_EXHAUSTED));
        assert_eq!(bitmap.pixel(6, y), Some(UNASSIGNED));
    }
}

#[test]
fn row_that_starts_beyond_the_order_gives_the_index_miss_sentinel() {
    let order = vec![picture("only", 2, 2, 1)];
    let rows = vec![Row { first: usize::MAX, top: 0, height: 1, ends: vec![3] }];
    let bitmap = painted(&order, &rows, 4, 1);
    for x in 0..3 {
        assert_eq!(bitmap.pixel(x, 0), Some(INDEX_MISS));
    }
    assert_eq!(bitmap.pixel(3, 0), Some(SLOT_EXHAUSTED));
}

#[test]
fn row_taller_than_its_image_gives_the_vertical_sentinel_above_it() {
    let order = vec![picture("only", 2, 2, 1)];
    let rows = vec![Row { first: 0, top: 0, height: 5, ends: vec![2] }];
    let bitmap = painted(&order, &rows, 3, 5);
    for x in 0..2 {
        for y in 0..3 {
            assert_eq!(bitmap.pixel(x, y), Some(VERTICAL_BOUNDS));
        }
        assert_eq!(bitmap.pixel(x, 3), Some(texel_of(1, x, 0)));
        assert_eq!(bitmap.pixel(x, 4), Some(texel_of(1, x, 1)));
    }
}

#[test]
fn slot_narrower_than_its_image_shows_the_right_part_of_it() {
    let order = vec![picture("only", 4, 1, 1)];
    let rows = vec![Row { first: 0, top: 0, height: 1, ends: vec![2] }];
    let bitmap = painted(&order, &rows, 3, 1);
    assert_eq!(bitmap.pixel(0, 0), Some(texel_of(1, 2, 0)));
    assert_eq!(bitmap.pixel(1, 0), Some(texel_of(1, 3, 0)));
    assert_eq!(bitmap.pixel(2, 0), Some(SLOT_EXHAUSTED));
}

#[test]
fn layout_is_not_paintable_unless_its_rows_are_stacked_in_the_bitmap() {
    let order = vec![picture("a", 2, 2, 1), picture("b", 2, 2, 2)];
    let good = vec![
        Row { first: 0, top: 0, height: 2, ends: vec![2] },
        Row { first: 1, top: 2, height: 2, ends: vec![2] },
    ];
    assert!(is_paintable(&order, &good, 4));
    assert!(!is_paintable(&order, &good, 3));
    let gap = vec![
        Row { first: 0, top: 0, height: 2, ends: vec![2] },
        Row { first: 1, top: 3, height: 1, ends: vec![2] },
    ];
    assert!(!is_paintable(&order, &gap, 4));
    let late = vec![Row { first: 0, top: 1, height: 2, ends: vec![2] }];
    assert!(!is_paintable(&order, &late, 4));
}

#[test]
fn layout_is_not_paintable_where_a_slot_is_wider_than_its_image() {
    let order = vec![picture("a", 2, 2, 1)];
    let wide = vec![Row { first: 0, top: 0, height: 2, ends: vec![3] }];
    assert!(!is_paintable(&order, &wide, 4));
    let backwards = vec![Row { first: 0, top: 0, height: 2, ends: vec![2, 1] }];
    assert!(!is_paintable(&order, &backwards, 4));
}
