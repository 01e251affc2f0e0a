use vstd::prelude::*;
use crate::bitmap::AtlasBitmap;
use crate::color::Color;
use crate::index::{holds_name, AtlasIndex, IndexEntry, UvRect};

verus! {

/// Whether `(x, y)` is one of the marks of the rectangle on a bitmap of the
/// given width: the texel of the top left corner with the one below it and
/// the one to its right and, unless the rectangle ends at the right edge of
/// the bitmap, the texel of the bottom right corner with the one above it
/// and the one to its left.
pub open spec fn marks(rect: UvRect, width: int, x: int, y: int) -> bool {
    ||| x == rect.left && y == rect.top
    ||| x == rect.left && y == rect.top + 1
    ||| x == rect.left + 1 && y == rect.top
    ||| rect.right != width && x == rect.right && y == rect.bottom
    ||| rect.right != width && x == rect.right && y == rect.bottom - 1
    ||| rect.right != width && x == rect.right - 1 && y == rect.bottom
}

/// Whether `(x, y)` is a mark of some rectangle of the index.
pub open spec fn marked(index: Map<Seq<char>, UvRect>, width: int, x: int, y: int) -> bool {
    exists|name: Seq<char>| index.dom().contains(name) && marks(#[trigger] index[name], width, x, y)
}

/// Whether `(x, y)` is a mark of one of the first `count` entries.
pub open spec fn marked_by(entries: Seq<IndexEntry>, count: int, width: int, x: int, y: int) -> bool {
    exists|i: int| 0 <= i < count && marks((#[trigger] entries[i]).rect, width, x, y)
}

/// Paints `(x, y)` in the marker colour if it lies on the bitmap.
fn mark_at(bitmap: &mut AtlasBitmap, x: i64, y: i64)
    requires
        old(bitmap).wf(),
    ensures
        final(bitmap).wf(),
        final(bitmap).spec_width() == old(bitmap).spec_width(),
        final(bitmap).spec_height() == old(bitmap).spec_height(),
        forall|px: int, py: int|
            0 <= px < final(bitmap).spec_width() && 0 <= py < final(bitmap).spec_height()
                ==> #[trigger] final(bitmap).texel(px, py) == (if px == x && py == y {
                Color::marker()
            } else {
                old(bitmap).texel(px, py)
            }),
{
    let width = bitmap.width();
    let height = bitmap.height();
    if 0 <= x && x < width as i64 && 0 <= y && y < height as i64 {
        bitmap.put(x as u32, y as u32, Color { r: 255, g: 255, b: 0, a: 255 });
    }
}

/// Paints the marks of one rectangle, as far as they lie on the bitmap.
fn mark_rect(bitmap: &mut AtlasBitmap, rect: UvRect)
    requires
        old(bitmap).wf(),
    ensures
        final(bitmap).wf(),
        final(bitmap).spec_width() == old(bitmap).spec_width(),
        final(bitmap).spec_height() == old(bitmap).spec_height(),
        forall|px: int, py: int|
            0 <= px < final(bitmap).spec_width() && 0 <= py < final(bitmap).spec_height()
                ==> #[trigger] final(bitmap).texel(px, py) == (if marks(
                rect,
                old(bitmap).spec_width(),
                px,
                py,
            ) {
                Color::marker()
            } else {
                old(bitmap).texel(px, py)
            }),
{
    let width = bitmap.width();
    let left = rect.left as i64;
    let top = rect.top as i64;
    mark_at(bitmap, left, top);
    mark_at(bitmap, left, top + 1);
    mark_at(bitmap, left + 1, top);
    if rect.right != width {
        let right = rect.right as i64;
        let bottom = rect.bottom as i64;
        mark_at(bitmap, right, bottom);
        mark_at(bitmap, right, bottom - 1);
        mark_at(bitmap, right - 1, bottom);
    }
}

/// Stamps the corners of every rectangle of the index on the bitmap, for
/// the eye: three texels in the shape of an L at the top left corner and
/// three at the bottom right one, in the marker colour. The marks of a
/// rectangle that ends at the right edge of the bitmap are those of its top
/// left corner only, and a mark that would fall outside the bitmap is not
/// painted. Every other texel stays as it was.
pub fn draw_debug_markers(bitmap: &mut AtlasBitmap, index: &AtlasIndex)
    requires
        old(bitmap).wf(),
    ensures
        final(bitmap).wf(),
        final(bitmap).spec_width() == old(bitmap).spec_width(),
        final(bitmap).spec_height() == old(bitmap).spec_height(),
        forall|x: int, y: int|
            0 <= x < final(bitmap).spec_width() && 0 <= y < final(bitmap).spec_height()
                ==> #[trigger] final(bitmap).texel(x, y) == (if marked(
                index@,
                old(bitmap).spec_width(),
                x,
                y,
            ) {
                Color::marker()
            } else {
                old(bitmap).texel(x, y)
            }),
{
    let ghost width = bitmap.spec_width();
    let ghost entries = index.entries();
    let count = index.len();
    let mut i: usize = 0;
    while i < count
        invariant
            bitmap.wf(),
            bitmap.spec_width() == old(bitmap).spec_width() == width,
            bitmap.spec_height() == old(bitmap).spec_height(),
            entries == index.entries(),
            count == entries.len(),
            i <= count,
            forall|x: int, y: int|
                0 <= x < bitmap.spec_width() && 0 <= y < bitmap.spec_height()
                    ==> #[trigger] bitmap.texel(x, y) == (if marked_by(
                    entries,
                    i as int,
                    width,
                    x,
                    y,
                ) {
                    Color::marker()
                } else {
                    old(bitmap).texel(x, y)
                }),
        decreases count - i,
    {
        let ghost before = *bitmap;
        let rect = index.entry(i).rect;
        mark_rect(bitmap, rect);
        proof {
            assert forall|x: int, y: int|
                0 <= x < bitmap.spec_width() && 0 <= y < bitmap.spec_height()
                    implies #[trigger] bitmap.texel(x, y) == (if marked_by(
                    entries,
                    i as int + 1,
                    width,
                    x,
                    y,
                ) {
                    Color::marker()
                } else {
                    old(bitmap).texel(x, y)
                }) by {
                assert(before.texel(x, y) == (if marked_by(entries, i as int, width, x, y) {
                    Color::marker()
                } else {
                    old(bitmap).texel(x, y)
                }));
                if marks(rect, width, x, y) {
                    assert(marks(entries[i as int].rect, width, x, y));
                }
                if marked_by(entries, i as int + 1, width, x, y) && !marks(rect, width, x, y) {
                    let j = choose|j: int|
                        0 <= j < i + 1 && marks((#[trigger] entries[j]).rect, width, x, y);
                    assert(j < i);
                }
            }
        }
        i += 1;
    }
    proof {
        index.lemma_entries();
        assert forall|x: int, y: int| marked(index@, width, x, y) == marked_by(
            entries,
            count as int,
            width,
            x,
            y,
        ) by {
            if marked(index@, width, x, y) {
                let name = choose|name: Seq<char>|
                    index@.dom().contains(name) && marks(#[trigger] index@[name], width, x, y);
                assert(holds_name(entries, name));
                let at = choose|at: int|
                    0 <= at < entries.len() && (#[trigger] entries[at]).name@ == name;
                assert(marks(entries[at].rect, width, x, y));
            }
            if marked_by(entries, count as int, width, x, y) {
                let at = choose|at: int|
                    0 <= at < count && marks((#[trigger] entries[at]).rect, width, x, y);
                assert(index@.dom().contains(entries[at].name@));
                assert(marks(index@[entries[at].name@], width, x, y));
            }
        }
    }
}

} // verus!
