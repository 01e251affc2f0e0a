//! Packs named images into one texture atlas of fixed size and tells, name
//! by name, where each image lies in it.
//!
//! The images are brought into packing order (`order`), laid out in rows
//! (`layout`), painted on the bitmap texel by texel (`compose`) and entered
//! in the index (`index`); on request the corners of each image are marked
//! (`markers`). `atlas` does all of this in one call, and `laws` states what
//! holds of the result. `block` resolves the texture names of block
//! definitions against an index, and `render` counts frames per second.

pub mod color;
pub mod bitmap;
pub mod source;
pub mod order;
pub mod layout;
pub mod index;
pub mod compose;
pub mod markers;
pub mod atlas;
pub mod laws;
pub mod block;
pub mod render;
