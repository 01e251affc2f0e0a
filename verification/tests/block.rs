use texture_atlas::block::{atlas_update_blocks, Block};
use texture_atlas::index::{AtlasIndex, UvRect};

fn names(list: &[&str]) -> Vec<String> {
    list.iter().map(|name| name.to_string()).collect()
}

fn mapping() -> AtlasIndex {
    let mut index = AtlasIndex::new();
    index.insert("grass_top".to_string(), UvRect { left: 0, top: 0, right: 16, bottom: 16 });
    index.insert("grass_side".to_string(), UvRect { left: 16, top: 0, right: 32, bottom: 16 });
    index.insert("dirt".to_string(), UvRect { left: 32, top: 0, right: 48, bottom: 16 });
    index
}

const ZERO: UvRect = UvRect { left: 0, top: 0, right: 0, bottom: 0 };

#[test]
fn new_block_has_one_unresolved_lookup_per_name() {
    let block = Block::new(names(&["a", "b", "c"]));
    assert_eq!(block.raw_texture_names, names(&["a", "b", "c"]));
    assert_eq!(block.texture_atlas_lookups, vec![ZERO, ZERO, ZERO]);
}

#[test]
fn block_faces_are_resolved_by_name() {
    let mut blocks = vec![
        Block::new(names(&["grass_top", "dirt", "grass_side", "grass_side"])),
        Block::new(names(&["dirt", "dirt"])),
    ];
    let unresolved = atlas_update_blocks(&mapping(), &mut blocks);
    assert!(unresolved.is_empty());
    assert_eq!(
        blocks[0].texture_atlas_lookups,
        vec![
            UvRect { left: 0, top: 0, right: 16, bottom: 16 },
            UvRect { left: 32, top: 0, right: 48, bottom: 16 },
            UvRect { left: 16, top: 0, right: 32, bottom: 16 },
            UvRect { left: 16, top: 0, right: 32, bottom: 16 },
        ]
    );
    assert_eq!(
        blocks[1].texture_atlas_lookups,
        vec![
            UvRect { left: 32, top: 0, right: 48, bottom: 16 },
            UvRect { left: 32, top: 0, right: 48, bottom: 16 },
        ]
    );
    assert_eq!(blocks[0].raw_texture_names, names(&["grass_top", "dirt", "grass_side", "grass_side"]));
}

#[test]
fn face_with_an_unknown_name_keeps_its_lookup() {
    let mut blocks = vec![
        Block::new(names(&["dirt", "lava", "grass_top"])),
        Block::new(names(&["water"])),
    ];
    let before = UvRect { left: 1, top: 2, right: 3, bottom: 4 };
    blocks[1].texture_atlas_lookups[0] = before;
    let unresolved = atlas_update_blocks(&mapping(), &mut blocks);
    assert_eq!(unresolved, vec![(0, 1), (1, 0)]);
    assert_eq!(
        blocks[0].texture_atlas_lookups,
        vec![
            UvRect { left: 32, top: 0, right: 48, bottom: 16 },
            ZERO,
            UvRect { left: 0, top: 0, right: 16, bottom: 16 },
        ]
    );
    assert_eq!(blocks[1].texture_atlas_lookups, vec![before]);
}

#[test]
fn every_face_is_unresolved_against_an_empty_index() {
    let mut blocks = vec![Block::new(names(&["a", "b"])), Block::new(Vec::new()), Block::new(names(&["c"]))];
    let unresolved = atlas_update_blocks(&AtlasIndex::new(), &mut blocks);
    assert_eq!(unresolved, vec![(0, 0), (0, 1), (2, 0)]);
    assert_eq!(blocks[0].texture_atlas_lookups, vec![ZERO, ZERO]);
    assert_eq!(blocks[2].texture_atlas_lookups, vec![ZERO]);
}

#[test]
fn no_blocks_nothing_to_resolve() {
    let mut blocks: Vec<Block> = Vec::new();
    assert!(atlas_update_blocks(&mapping(), &mut blocks).is_empty());
    assert!(blocks.is_empty());
}
