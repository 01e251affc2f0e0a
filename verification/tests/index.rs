use texture_atlas::color::Color;
use texture_atlas::index::{build_index, is_indexable, AtlasIndex, UvRect};
use texture_atlas::layout::{pack_rows, Row};
use texture_atlas::source::SourceImage;

fn tile(name: &str, width: u32, height: u32) -> SourceImage {
    let texel = Color { r: 7, g: 7, b: 7, a: 255 };
    SourceImage::new(name.to_string(), width, height, vec![texel; (width * height) as usize])
        .unwrap()
}

fn rect(left: u32, top: u32, right: u32, bottom: u32) -> UvRect {
    UvRect { left, top, right, bottom }
}

#[test]
fn index_starts_empty() {
    let index = AtlasIndex::new();
    assert_eq!(index.len(), 0);
    assert_eq!(index.get("anything"), None);
}

#[test]
fn index_returns_what_was_put_under_a_name() {
    let mut index = AtlasIndex::new();
    index.insert("stone".to_string(), rect(0, 0, 16, 16));
    index.insert("dirt".to_string(), rect(16, 0, 32, 16));
    assert_eq!(index.len(), 2);
    assert_eq!(index.get("stone"), Some(rect(0, 0, 16, 16)));
    assert_eq!(index.get("dirt"), Some(rect(16, 0, 32, 16)));
    assert_eq!(index.get("sand"), None);
    assert_eq!(index.get("ston"), None);
}

#[test]
fn index_keeps_the_later_of_two_entries_under_one_name() {
    let mut index = AtlasIndex::new();
    index.insert("stone".to_string(), rect(0, 0, 16, 16));
    index.insert("dirt".to_string(), rect(16, 0, 32, 16));
    index.insert("stone".to_string(), rect(1, 2, 3, 4));
    assert_eq!(index.len(), 2);
    assert_eq!(index.get("stone"), Some(rect(1, 2, 3, 4)));
    assert_eq!(index.get("dirt"), Some(rect(16, 0, 32, 16)));
}

#[test]
fn index_entries_can_be_walked() {
    let mut index = AtlasIndex::new();
    index.insert("a".to_string(), rect(0, 0, 1, 1));
    index.insert("b".to_string(), rect(1, 0, 2, 1));
    let mut seen = Vec::new();
    for i in 0..index.len() {
        let entry = index.entry(i);
        seen.push((entry.name.clone(), entry.rect));
    }
    assert_eq!(
        seen,
        vec![("a".to_string(), rect(0, 0, 1, 1)), ("b".to_string(), rect(1, 0, 2, 1))]
    );
}

#[test]
fn rectangles_follow_the_slots_and_stand_on_the_row_bottom() {
    let order = vec![
        tile("a", 4, 3),
        tile("b", 5, 3),
        tile("c", 3, 2),
        tile("d", 6, 2),
        tile("e", 2, 1),
    ];
    let layout = pack_rows(&order, 10, 10);
    assert!(is_indexable(&order, &layout.rows));
    let index = build_index(&order, &layout.rows);
    assert_eq!(index.len(), 5);
    assert_eq!(index.get("a"), Some(rect(0, 0, 4, 3)));
    assert_eq!(index.get("b"), Some(rect(4, 0, 9, 3)));
    assert_eq!(index.get("c"), Some(rect(0, 3, 3, 5)));
    assert_eq!(index.get("d"), Some(rect(3, 3, 9, 5)));
    assert_eq!(index.get("e"), Some(rect(0, 5, 2, 6)));
}

#[test]
fn shorter_image_is_indexed_at_the_bottom_of_its_row() {
    let order = vec![tile("tall", 4, 4), tile("short", 3, 2)];
    let layout = pack_rows(&order, 10, 10);
    let index = build_index(&order, &layout.rows);
    assert_eq!(index.get("tall"), Some(rect(0, 0, 4, 4)));
    assert_eq!(index.get("short"), Some(rect(4, 2, 7, 4)));
}

#[test]
fn rectangle_is_as_large_as_its_image() {
    let order = vec![
        tile("a", 7, 6),
        tile("b", 2, 6),
        tile("c", 5, 4),
        tile("d", 9, 3),
        tile("e", 1, 1),
        tile("f", 3, 1),
    ];
    let layout = pack_rows(&order, 12, 32);
    assert!(!layout.overflow);
    let index = build_index(&order, &layout.rows);
    for image in &order {
        let found = index.get(image.name()).unwrap();
        assert_eq!(found.right - found.left, image.width());
        assert_eq!(found.bottom - found.top, image.height());
        assert!(found.right <= 12);
        assert!(found.bottom <= 32);
    }
}

#[test]
fn images_left_over_are_not_indexed() {
    let order = vec![tile("r0", 4, 2), tile("r1", 4, 2), tile("r2", 4, 2), tile("r3", 4, 2)];
    let layout = pack_rows(&order, 4, 4);
    let index = build_index(&order, &layout.rows);
    assert_eq!(index.len(), 2);
    assert_eq!(index.get("r0"), Some(rect(0, 0, 4, 2)));
    assert_eq!(index.get("r1"), Some(rect(0, 2, 4, 4)));
    assert_eq!(index.get("r2"), None);
    assert_eq!(index.get("r3"), None);
}

#[test]
fn layout_with_a_slot_beyond_the_order_cannot_be_indexed() {
    let order = vec![tile("only", 2, 2)];
    let rows = vec![Row { first: 0, top: 0, height: 2, ends: vec![2, 4] }];
    assert!(!is_indexable(&order, &rows));
}

#[test]
fn layout_with_an_image_taller_than_the_row_bottom_cannot_be_indexed() {
    let order = vec![tile("tall", 2, 5)];
    let rows = vec![Row { first: 0, top: 0, height: 3, ends: vec![2] }];
    assert!(!is_indexable(&order, &rows));
    let lower = vec![Row { first: 0, top: 2, height: 3, ends: vec![2] }];
    assert!(is_indexable(&order, &lower));
    let index = build_index(&order, &lower);
    assert_eq!(index.get("tall"), Some(rect(0, 0, 2, 5)));
}
