use vstd::prelude::*;
use crate::index::{AtlasIndex, UvRect};

verus! {

/// A kind of voxel block: the names of the textures of its faces and, face
/// by face, where each lies in the atlas.
pub struct Block {
    /// The texture name of each face.
    pub raw_texture_names: Vec<String>,
    /// For each face, the rectangle of its texture in the atlas.
    pub texture_atlas_lookups: Vec<UvRect>,
}

impl Block {
    /// The block has one lookup per texture name.
    pub open spec fn wf(&self) -> bool {
        self.texture_atlas_lookups.len() == self.raw_texture_names.len()
    }

    /// The rectangle that a lookup holds before it is resolved.
    pub open spec fn unresolved() -> UvRect {
        UvRect { left: 0, top: 0, right: 0, bottom: 0 }
    }

    /// A block with the given texture names, none of them resolved yet.
    pub fn new(raw_texture_names: Vec<String>) -> (block: Block)
        ensures
            block.wf(),
            block.raw_texture_names == raw_texture_names,
            forall|face: int|
                0 <= face < block.texture_atlas_lookups.len()
                    ==> #[trigger] block.texture_atlas_lookups[face] == Block::unresolved(),
    {
        let mut texture_atlas_lookups: Vec<UvRect> = Vec::new();
        let mut face: usize = 0;
        while face < raw_texture_names.len()
            invariant
                face <= raw_texture_names.len(),
                texture_atlas_lookups.len() == face,
                forall|f: int|
                    0 <= f < face ==> #[trigger] texture_atlas_lookups[f] == Block::unresolved(),
            decreases raw_texture_names.len() - face,
        {
            texture_atlas_lookups.push(UvRect { left: 0, top: 0, right: 0, bottom: 0 });
            face += 1;
        }
        Block { raw_texture_names, texture_atlas_lookups }
    }
}

/// Every block has one lookup per texture name.
pub open spec fn blocks_wf(blocks: Seq<Block>) -> bool {
    forall|b: int| 0 <= b < blocks.len() ==> (#[trigger] blocks[b]).wf()
}

/// What face `face` of a block looks up once the block is resolved against
/// the index: the rectangle under the face's texture name, or what it held
/// before where the index lacks the name.
pub open spec fn resolved_lookup(mapping: Map<Seq<char>, UvRect>, block: Block, face: int) -> UvRect {
    let name = block.raw_texture_names[face]@;
    if mapping.dom().contains(name) {
        mapping[name]
    } else {
        block.texture_atlas_lookups[face]
    }
}

/// The index lacks the texture name of face `face` of block `b`.
pub open spec fn is_miss(mapping: Map<Seq<char>, UvRect>, blocks: Seq<Block>, b: int, face: int) -> bool {
    &&& 0 <= b < blocks.len()
    &&& 0 <= face < blocks[b].raw_texture_names.len()
    &&& !mapping.dom().contains(blocks[b].raw_texture_names[face]@)
}

/// `(b, face)` comes before `(c, other)` when the faces are taken block
/// after block.
pub open spec fn face_before(b: int, face: int, c: int, other: int) -> bool {
    b < c || (b == c && face < other)
}

/// The list holds the faces whose names the index lacks, and no others,
/// each once, block after block.
pub open spec fn lists_misses(
    mapping: Map<Seq<char>, UvRect>,
    blocks: Seq<Block>,
    list: Seq<(usize, usize)>,
) -> bool {
    &&& forall|i: int|
        0 <= i < list.len() ==> is_miss(mapping, blocks, (#[trigger] list[i]).0 as int, list[i].1 as int)
    &&& forall|i: int, j: int|
        0 <= i < j < list.len() ==> face_before(
            (#[trigger] list[i]).0 as int,
            list[i].1 as int,
            (#[trigger] list[j]).0 as int,
            list[j].1 as int,
        )
    &&& forall|b: int, face: int|
        is_miss(mapping, blocks, b, face) ==> exists|i: int|
            0 <= i < list.len() && #[trigger] list[i] == (b as usize, face as usize)
}

/// Resolves the texture names of every block against the index. A face
/// whose name the index holds looks up the rectangle under that name from
/// then on; a face whose name it lacks keeps what it had and is reported in
/// the result, as the pair of its block's position and its own.
pub fn atlas_update_blocks(mapping: &AtlasIndex, blocks: &mut Vec<Block>) -> (unresolved: Vec<
    (usize, usize),
>)
    requires
        blocks_wf(old(blocks)@),
    ensures
        final(blocks).len() == old(blocks).len(),
        blocks_wf(final(blocks)@),
        forall|b: int|
            0 <= b < final(blocks).len() ==> (#[trigger] final(blocks)[b]).raw_texture_names
                == old(blocks)[b].raw_texture_names,
        forall|b: int, face: int|
            0 <= b < final(blocks).len() && 0 <= face < final(blocks)[b].raw_texture_names.len()
                ==> #[trigger] final(blocks)[b].texture_atlas_lookups[face] == resolved_lookup(
                mapping@,
                old(blocks)[b],
                face,
            ),
        lists_misses(mapping@, old(blocks)@, unresolved@),
{
    let mut unresolved: Vec<(usize, usize)> = Vec::new();
    let mut b: usize = 0;
    while b < blocks.len()
        invariant
            blocks.len() == old(blocks).len(),
            blocks_wf(blocks@),
            b <= blocks.len(),
            forall|c: int|
                0 <= c < blocks.len() ==> (#[trigger] blocks[c]).raw_texture_names == old(
                    blocks,
                )[c].raw_texture_names,
            forall|c: int, face: int|
                0 <= c < blocks.len() && 0 <= face < blocks[c].raw_texture_names.len()
                    ==> #[trigger] blocks[c].texture_atlas_lookups[face] == (if c < b {
                    resolved_lookup(mapping@, old(blocks)[c], face)
                } else {
                    old(blocks)[c].texture_atlas_lookups[face]
                }),
            forall|i: int|
                0 <= i < unresolved.len() ==> is_miss(
                    mapping@,
                    old(blocks)@,
                    (#[trigger] unresolved@[i]).0 as int,
                    unresolved@[i].1 as int,
                ) && unresolved@[i].0 < b,
            forall|i: int, j: int|
                0 <= i < j < unresolved.len() ==> face_before(
                    (#[trigger] unresolved@[i]).0 as int,
                    unresolved@[i].1 as int,
                    (#[trigger] unresolved@[j]).0 as int,
                    unresolved@[j].1 as int,
                ),
            forall|c: int, face: int|
                is_miss(mapping@, old(blocks)@, c, face) && c < b ==> exists|i: int|
                    0 <= i < unresolved.len() && #[trigger] unresolved@[i] == (
                        c as usize,
                        face as usize,
                    ),
        decreases blocks.len() - b,
    {
        let faces = blocks[b].raw_texture_names.len();
        let mut face: usize = 0;
        while face < faces
            invariant
                blocks.len() == old(blocks).len(),
                blocks_wf(blocks@),
                b < blocks.len(),
                faces == blocks[b as int].raw_texture_names.len(),
                face <= faces,
                forall|c: int|
                    0 <= c < blocks.len() ==> (#[trigger] blocks[c]).raw_texture_names == old(
                        blocks,
                    )[c].raw_texture_names,
                forall|c: int, f: int|
                    0 <= c < blocks.len() && 0 <= f < blocks[c].raw_texture_names.len()
                        ==> #[trigger] blocks[c].texture_atlas_lookups[f] == (if c < b || (c == b
                        && f < face) {
                        resolved_lookup(mapping@, old(blocks)[c], f)
                    } else {
                        old(blocks)[c].texture_atlas_lookups[f]
                    }),
                forall|i: int|
                    0 <= i < unresolved.len() ==> is_miss(
                        mapping@,
                        old(blocks)@,
                        (#[trigger] unresolved@[i]).0 as int,
                        unresolved@[i].1 as int,
                    ) && face_before(
                        unresolved@[i].0 as int,
                        unresolved@[i].1 as int,
                        b as int,
                        face as int,
                    ),
                forall|i: int, j: int|
                    0 <= i < j < unresolved.len() ==> face_before(
                        (#[trigger] unresolved@[i]).0 as int,
                        unresolved@[i].1 as int,
                        (#[trigger] unresolved@[j]).0 as int,
                        unresolved@[j].1 as int,
                    ),
                forall|c: int, f: int|
                    is_miss(mapping@, old(blocks)@, c, f) && face_before(c, f, b as int, face as int)
                        ==> exists|i: int|
                        0 <= i < unresolved.len() && #[trigger] unresolved@[i] == (
                            c as usize,
                            f as usize,
                        ),
            decreases faces - face,
        {
            let ghost listed = unresolved@;
            let found = mapping.get(blocks[b].raw_texture_names[face].as_str());
            match found {
                Some(rect) => {
                    blocks[b].texture_atlas_lookups.set(face, rect);
                },
                None => {
                    unresolved.push((b, face));
                },
            }
            proof {
                let name = old(blocks)[b as int].raw_texture_names[face as int]@;
                assert(found.is_some() == mapping@.dom().contains(name));
                assert forall|c: int, f: int|
                    is_miss(mapping@, old(blocks)@, c, f) && face_before(
                        c,
                        f,
                        b as int,
                        face as int + 1,
                    ) implies exists|i: int|
                    0 <= i < unresolved.len() && #[trigger] unresolved@[i] == (
                        c as usize,
                        f as usize,
                    ) by {
                    if c == b && f == face {
                        assert(unresolved@[unresolved.len() - 1] == (b, face));
                    } else {
                        assert(face_before(c, f, b as int, face as int));
                        let i = choose|i: int|
                            0 <= i < listed.len() && #[trigger] listed[i] == (
                                c as usize,
                                f as usize,
                            );
                        assert(unresolved@[i] == listed[i]);
                    }
                }
            }
            face += 1;
        }
        proof {
            assert forall|c: int, f: int|
                is_miss(mapping@, old(blocks)@, c, f) && c < b + 1 implies exists|i: int|
                0 <= i < unresolved.len() && #[trigger] unresolved@[i] == (
                    c as usize,
                    f as usize,
                ) by {
                assert(face_before(c, f, b as int, faces as int));
            }
            assert forall|i: int| 0 <= i < unresolved.len() implies (#[trigger] unresolved@[i]).0
                < b + 1 by {
                assert(face_before(
                    unresolved@[i].0 as int,
                    unresolved@[i].1 as int,
                    b as int,
                    faces as int,
                ));
            }
        }
        b += 1;
    }
    unresolved
}

} // verus!
