use vstd::prelude::*;
use crate::atlas::{is_atlas_of, AtlasSettings, TextureAtlas};
use crate::bitmap::{bitmap_pixels, bitmap_size};
use crate::color::Color;
use crate::compose::{
    band_of, composited, cursor_entering, in_band, lemma_band_unique, lemma_cursor_stops, resolve,
    sample, slot_cursor,
};
use crate::index::{atlas_index, index_row, index_rows, slot_rect, UvRect};
use crate::layout::{
    atlas_rows, chained_at, lemma_atlas_rows, lemma_atlas_rows_heights, lemma_shelf_ends_len,
    placed_after, placed_count, row_is_shelf, rows_chained, shelf_ends, shelf_rows, slot_exact,
    slots_exact, stacked_at, RowModel,
};
use crate::order::{
    lemma_filter_from, lemma_packing_order_members, lemma_packing_order_sorted, packing_order,
    tallest_first,
};
use crate::source::{models_valid, ImageModel};

verus! {

/// No two of the images have one name.
pub open spec fn names_unique(images: Seq<ImageModel>) -> bool {
    forall|i: int, j: int|
        0 <= i < j < images.len() ==> (#[trigger] images[i]).name != (#[trigger] images[j]).name
}

/// One of the images of the order from position `from` up to, but without,
/// position `to` has the name.
pub open spec fn named_between(order: Seq<ImageModel>, from: int, to: int, name: Seq<char>) -> bool {
    exists|i: int| from <= i < to && 0 <= i < order.len() && (#[trigger] order[i]).name == name
}

/// One of the first `count` images of the order has the name.
pub open spec fn named_among(order: Seq<ImageModel>, count: int, name: Seq<char>) -> bool {
    named_between(order, 0, count, name)
}

/// The rows of a chain take up the images in turn: a row starts behind the
/// images of every row above it.
pub proof fn lemma_chain_ascends(rows: Seq<RowModel>, upper: int, lower: int)
    requires
        rows_chained(rows, 0, 0),
        0 <= upper < lower < rows.len(),
        forall|k: int| 0 <= k < rows.len() ==> 0 <= (#[trigger] rows[k]).first,
    ensures
        rows[upper].first + rows[upper].ends.len() <= rows[lower].first,
    decreases lower - upper,
{
    assert(chained_at(rows, lower, 0, 0));
    assert(rows.take(lower).last() == rows[lower - 1]);
    if upper + 1 < lower {
        lemma_chain_ascends(rows, upper, lower - 1);
    }
}

/// The names that a row adds to an index are those of its images.
proof fn lemma_index_row_names(
    base: Map<Seq<char>, UvRect>,
    order: Seq<ImageModel>,
    row: RowModel,
    slots: int,
)
    requires
        0 <= row.first,
        0 <= slots,
        row.first + slots <= order.len(),
    ensures
        forall|name: Seq<char>|
            #[trigger] index_row(base, order, row, slots).dom().contains(name) <==> (
            base.dom().contains(name) || named_between(
                order,
                row.first,
                row.first + slots,
                name,
            )),
    decreases slots,
{
    if slots > 0 {
        lemma_index_row_names(base, order, row, slots - 1);
        let before = index_row(base, order, row, slots - 1);
        let after = index_row(base, order, row, slots);
        let last = row.first + slots - 1;
        assert(after == before.insert(order[last].name, slot_rect(order, row, slots - 1)));
        assert forall|name: Seq<char>| #[trigger]
            after.dom().contains(name) <==> (base.dom().contains(name) || named_between(
                order,
                row.first,
                row.first + slots,
                name,
            )) by {
            if after.dom().contains(name) && !base.dom().contains(name) {
                if before.dom().contains(name) {
                    assert(named_between(order, row.first, last, name));
                    let i = choose|i: int|
                        row.first <= i < last && 0 <= i < order.len() && (#[trigger] order[i]).name
                            == name;
                    assert(order[i].name == name);
                } else {
                    assert(order[last].name == name);
                }
            }
            if named_between(order, row.first, row.first + slots, name) {
                let i = choose|i: int|
                    row.first <= i < row.first + slots && 0 <= i < order.len() && (
                    #[trigger] order[i]).name == name;
                if i < last {
                    assert(named_between(order, row.first, last, name));
                    assert(before.dom().contains(name));
                }
            }
        }
    }
}

/// What a row enters in an index: under the name of each of its images the
/// rectangle of that image's slot, and under every other name what stood
/// there.
proof fn lemma_index_row_values(
    base: Map<Seq<char>, UvRect>,
    order: Seq<ImageModel>,
    row: RowModel,
    slots: int,
)
    requires
        names_unique(order),
        0 <= row.first,
        0 <= slots,
        row.first + slots <= order.len(),
    ensures
        forall|s: int|
            0 <= s < slots ==> index_row(base, order, row, slots).dom().contains(
                (#[trigger] order[row.first + s]).name,
            ) && index_row(base, order, row, slots)[order[row.first + s].name] == slot_rect(
                order,
                row,
                s,
            ),
        forall|i: int|
            0 <= i < order.len() && !(row.first <= i < row.first + slots) ==> {
                &&& index_row(base, order, row, slots).dom().contains((#[trigger] order[i]).name)
                    == base.dom().contains(order[i].name)
                &&& index_row(base, order, row, slots)[order[i].name] == base[order[i].name]
            },
    decreases slots,
{
    if slots > 0 {
        lemma_index_row_values(base, order, row, slots - 1);
        let before = index_row(base, order, row, slots - 1);
        let after = index_row(base, order, row, slots);
        let last = row.first + slots - 1;
        assert(after == before.insert(order[last].name, slot_rect(order, row, slots - 1)));
        assert forall|s: int| 0 <= s < slots implies after.dom().contains(
            (#[trigger] order[row.first + s]).name,
        ) && after[order[row.first + s].name] == slot_rect(order, row, s) by {
            if s < slots - 1 {
                assert(order[row.first + s].name != order[last].name);
            }
        }
        assert forall|i: int|
            0 <= i < order.len() && !(row.first <= i < row.first + slots) implies {
            &&& after.dom().contains((#[trigger] order[i]).name) == base.dom().contains(
                order[i].name,
            )
            &&& after[order[i].name] == base[order[i].name]
        } by {
            if i < last {
                assert(order[i].name != order[last].name);
            } else {
                assert(order[last].name != order[i].name);
            }
        }
    }
}

/// The names in the index of the first `count` rows are those of the
/// images that these rows hold.
proof fn lemma_index_rows_names(order: Seq<ImageModel>, rows: Seq<RowModel>, count: int)
    requires
        rows_chained(rows, 0, 0),
        forall|k: int|
            0 <= k < rows.len() ==> 0 <= (#[trigger] rows[k]).first && rows[k].first
                + rows[k].ends.len() <= order.len(),
        0 <= count <= rows.len(),
    ensures
        forall|name: Seq<char>|
            #[trigger] index_rows(order, rows, count).dom().contains(name) <==> named_among(
                order,
                placed_after(rows.take(count), 0),
                name,
            ),
    decreases count,
{
    if count > 0 {
        let row = rows[count - 1];
        let base = index_rows(order, rows, count - 1);
        let after = index_rows(order, rows, count);
        lemma_index_rows_names(order, rows, count - 1);
        lemma_index_row_names(base, order, row, row.ends.len() as int);
        assert(chained_at(rows, count - 1, 0, 0));
        assert(rows.take(count).last() == row);
        let placed = row.first + row.ends.len();
        assert forall|name: Seq<char>| #[trigger]
            after.dom().contains(name) <==> named_among(order, placed, name) by {
            if after.dom().contains(name) {
                if base.dom().contains(name) {
                    assert(named_among(order, row.first, name));
                    let i = choose|i: int|
                        0 <= i < row.first && 0 <= i < order.len() && (#[trigger] order[i]).name
                            == name;
                    assert(order[i].name == name);
                } else {
                    assert(named_between(order, row.first, placed, name));
                    let i = choose|i: int|
                        row.first <= i < placed && 0 <= i < order.len() && (
                        #[trigger] order[i]).name == name;
                    assert(order[i].name == name);
                }
            }
            if named_among(order, placed, name) {
                let i = choose|i: int|
                    0 <= i < placed && 0 <= i < order.len() && (#[trigger] order[i]).name == name;
                if i < row.first {
                    assert(named_among(order, row.first, name));
                    assert(base.dom().contains(name));
                } else {
                    assert(named_between(order, row.first, placed, name));
                }
            }
        }
    } else {
        assert(rows.take(0).len() == 0);
        assert forall|name: Seq<char>| !named_among(order, 0, name) by {}
    }
}

/// Where no two images have one name, the index of the first `count` rows
/// holds, under the name of each image of these rows, the rectangle of that
/// image's slot.
proof fn lemma_index_rows_values(order: Seq<ImageModel>, rows: Seq<RowModel>, count: int)
    requires
        names_unique(order),
        rows_chained(rows, 0, 0),
        forall|k: int|
            0 <= k < rows.len() ==> 0 <= (#[trigger] rows[k]).first && rows[k].first
                + rows[k].ends.len() <= order.len(),
        0 <= count <= rows.len(),
    ensures
        forall|k: int, s: int|
            0 <= k < count && 0 <= s < rows[k].ends.len() ==> index_rows(
                order,
                rows,
                count,
            ).dom().contains((#[trigger] order[rows[k].first + s]).name) && index_rows(
                order,
                rows,
                count,
            )[order[rows[k].first + s].name] == slot_rect(order, rows[k], s),
    decreases count,
{
    if count > 0 {
        let row = rows[count - 1];
        let base = index_rows(order, rows, count - 1);
        let after = index_rows(order, rows, count);
        lemma_index_rows_values(order, rows, count - 1);
        lemma_index_row_values(base, order, row, row.ends.len() as int);
        assert forall|k: int, s: int|
            0 <= k < count && 0 <= s < rows[k].ends.len() implies after.dom().contains(
            (#[trigger] order[rows[k].first + s]).name,
        ) && after[order[rows[k].first + s].name] == slot_rect(order, rows[k], s) by {
            if k < count - 1 {
                lemma_chain_ascends(rows, k, count - 1);
                let i = rows[k].first + s;
                assert(!(row.first <= i < row.first + row.ends.len()));
            }
        }
    }
}

/// Images with distinct names have distinct names in packing order too.
pub proof fn lemma_packing_order_names(images: Seq<ImageModel>, max_height: int)
    requires
        names_unique(images),
    ensures
        names_unique(packing_order(images, max_height)),
    decreases max_height + 1,
{
    let all = crate::order::buckets_down(images, max_height);
    if max_height >= 0 {
        let top = crate::order::bucket(images, max_height);
        let below = crate::order::buckets_down(images, max_height - 1);
        lemma_packing_order_names(images, max_height - 1);
        lemma_bucket_names(images, max_height);
        lemma_packing_order_members(images, max_height - 1);
        lemma_packing_order_sorted(images, max_height - 1);
        lemma_packing_order_members(images, max_height);
        lemma_packing_order_sorted(images, max_height);
        assert forall|i: int, j: int| 0 <= i < j < all.len() implies (#[trigger] all[i]).name != (
        #[trigger] all[j]).name by {
            if j < top.len() {
                assert(all[i] == top[i] && all[j] == top[j]);
            } else if i >= top.len() {
                assert(all[i] == below[i - top.len()] && all[j] == below[j - top.len()]);
                assert(packing_order(images, max_height - 1)[i - top.len()].name != packing_order(
                    images,
                    max_height - 1,
                )[j - top.len()].name);
            } else {
                assert(all[i] == top[i] && all[j] == below[j - top.len()]);
                assert(top[i].height == max_height) by {
                    images.lemma_filter_pred(|image: ImageModel| image.height == max_height, i);
                }
                assert(packing_order(images, max_height - 1)[j - top.len()].height <= max_height
                    - 1);
                assert(images.contains(packing_order(images, max_height)[i]));
                assert(images.contains(packing_order(images, max_height)[j]));
                let a = choose|a: int| 0 <= a < images.len() && images[a] == all[i];
                let b = choose|b: int| 0 <= b < images.len() && images[b] == all[j];
                assert(a != b);
                if a < b {
                    assert(images[a].name != images[b].name);
                } else {
                    assert(images[b].name != images[a].name);
                }
            }
        }
    }
}

/// Images with distinct names have distinct names in each bucket.
proof fn lemma_bucket_names(images: Seq<ImageModel>, height: int)
    requires
        names_unique(images),
    ensures
        names_unique(crate::order::bucket(images, height)),
    decreases images.len(),
{
    reveal(Seq::filter);
    let pred = |image: ImageModel| image.height == height;
    let kept = images.filter(pred);
    if images.len() > 0 {
        let front = images.drop_last();
        assert(names_unique(front)) by {
            assert forall|i: int, j: int| 0 <= i < j < front.len() implies (#[trigger] front[i]).name
                != (#[trigger] front[j]).name by {
                assert(images[i].name != images[j].name);
            }
        }
        lemma_bucket_names(front, height);
        let inner = front.filter(pred);
        assert(inner == crate::order::bucket(front, height));
        assert forall|i: int, j: int| 0 <= i < j < kept.len() implies (#[trigger] kept[i]).name != (
        #[trigger] kept[j]).name by {
            if j < inner.len() {
                assert(kept[i] == inner[i] && kept[j] == inner[j]);
            } else {
                assert(kept[j] == images[images.len() - 1]);
                assert(kept[i] == inner[i]);
                lemma_filter_from(front, pred);
                assert(front.contains(front.filter(pred)[i]));
                let a = choose|a: int| 0 <= a < front.len() && front[a] == inner[i];
                assert(images[a].name != images[images.len() - 1].name);
            }
        }
    }
}

/// Every name of the index is the name of an image that was handed in and
/// is no taller than the cutoff; and where the layout has placed all that
/// it was given, every such image has its name in the index. So, with
/// distinct names, the index has one entry for each image up to the cutoff
/// and none for a taller one.
pub proof fn lemma_index_names(
    textures: Seq<ImageModel>,
    max_height: int,
    width: int,
    height: int,
)
    ensures
        ({
            let order = packing_order(textures, max_height);
            let rows = atlas_rows(order, width, height);
            let index = atlas_index(order, rows);
            &&& forall|name: Seq<char>|
                index.dom().contains(name) ==> exists|i: int|
                    0 <= i < textures.len() && (#[trigger] textures[i]).name == name
                        && textures[i].height <= max_height
            &&& placed_count(rows) == order.len() ==> forall|i: int|
                0 <= i < textures.len() && 0 <= (#[trigger] textures[i]).height <= max_height
                    ==> index.dom().contains(textures[i].name)
            &&& names_unique(textures) ==> forall|i: int|
                0 <= i < textures.len() && (#[trigger] textures[i]).height > max_height
                    ==> !index.dom().contains(textures[i].name)
        }),
{
    let order = packing_order(textures, max_height);
    let rows = atlas_rows(order, width, height);
    let index = atlas_index(order, rows);
    lemma_atlas_rows(order, width, height);
    lemma_packing_order_members(textures, max_height);
    lemma_packing_order_sorted(textures, max_height);
    assert forall|k: int| 0 <= k < rows.len() implies 0 <= (#[trigger] rows[k]).first
        && rows[k].first + rows[k].ends.len() <= order.len() by {
        assert(slots_exact(order, rows[k], width));
    }
    lemma_index_rows_names(order, rows, rows.len() as int);
    assert(rows.take(rows.len() as int) =~= rows);
    let placed = placed_count(rows);
    assert forall|name: Seq<char>| index.dom().contains(name) implies exists|i: int|
        0 <= i < textures.len() && (#[trigger] textures[i]).name == name && textures[i].height
            <= max_height by {
        assert(named_among(order, placed, name));
        let at = choose|at: int|
            0 <= at < placed && 0 <= at < order.len() && (#[trigger] order[at]).name == name;
        assert(textures.contains(packing_order(textures, max_height)[at]));
        let i = choose|i: int| 0 <= i < textures.len() && textures[i] == order[at];
        assert(textures[i].name == name);
        assert(packing_order(textures, max_height)[at].height <= max_height);
    }
    if placed == order.len() {
        assert forall|i: int|
            0 <= i < textures.len() && 0 <= (#[trigger] textures[i]).height
                <= max_height implies index.dom().contains(textures[i].name) by {
            assert(order.contains(textures[i]));
            let at = choose|at: int| 0 <= at < order.len() && order[at] == textures[i];
            assert(order[at].name == textures[i].name);
            assert(named_among(order, placed, textures[i].name));
        }
    }
    if names_unique(textures) {
        assert forall|i: int|
            0 <= i < textures.len() && (#[trigger] textures[i]).height
                > max_height implies !index.dom().contains(textures[i].name) by {
            if index.dom().contains(textures[i].name) {
                let j = choose|j: int|
                    0 <= j < textures.len() && (#[trigger] textures[j]).name == textures[i].name
                        && textures[j].height <= max_height;
                if i < j {
                    assert(textures[i].name != textures[j].name);
                } else if j < i {
                    assert(textures[j].name != textures[i].name);
                }
            }
        }
    }
}

/// Where no two images of the order have one name, the index has as many
/// entries as the layout has placed images.
pub proof fn lemma_index_size(order: Seq<ImageModel>, width: int, height: int)
    requires
        names_unique(order),
    ensures
        atlas_index(order, atlas_rows(order, width, height)).dom().finite(),
        atlas_index(order, atlas_rows(order, width, height)).dom().len() == placed_count(
            atlas_rows(order, width, height),
        ),
{
    let rows = atlas_rows(order, width, height);
    let index = atlas_index(order, rows);
    let placed = placed_count(rows);
    lemma_atlas_rows(order, width, height);
    assert forall|k: int| 0 <= k < rows.len() implies 0 <= (#[trigger] rows[k]).first
        && rows[k].first + rows[k].ends.len() <= order.len() by {
        assert(slots_exact(order, rows[k], width));
    }
    lemma_index_rows_names(order, rows, rows.len() as int);
    assert(rows.take(rows.len() as int) =~= rows);
    let names = order.take(placed).map_values(|image: ImageModel| image.name);
    assert(names.no_duplicates()) by {
        assert forall|i: int, j: int|
            0 <= i < names.len() && 0 <= j < names.len() && i != j implies names[i]
            != names[j] by {
            if i < j {
                assert(order[i].name != order[j].name);
            } else {
                assert(order[j].name != order[i].name);
            }
        }
    }
    names.unique_seq_to_set();
    vstd::seq_lib::seq_to_set_is_finite(names);
    assert(index.dom() =~= names.to_set()) by {
        assert forall|name: Seq<char>| index.dom().contains(name) <==> names.to_set().contains(
            name,
        ) by {
            if named_among(order, placed, name) {
                let i = choose|i: int|
                    0 <= i < placed && 0 <= i < order.len() && (#[trigger] order[i]).name == name;
                assert(names[i] == name);
            }
            if names.contains(name) {
                let i = choose|i: int| 0 <= i < names.len() && names[i] == name;
                assert(order[i].name == name);
                assert(named_among(order, placed, name));
            }
        }
    }
}

/// The rectangle of a placed image is as wide and as tall as the image,
/// lies inside the atlas and stands on the bottom of the image's row; and
/// where no two images of the order have one name, it is what the index
/// holds under the image's name.
pub proof fn lemma_placed_rect(
    order: Seq<ImageModel>,
    width: int,
    height: int,
    k: int,
    slot: int,
)
    requires
        models_valid(order),
        tallest_first(order),
        width <= u32::MAX,
        height <= u32::MAX,
        0 <= k < atlas_rows(order, width, height).len(),
        0 <= slot < atlas_rows(order, width, height)[k].ends.len(),
    ensures
        ({
            let row = atlas_rows(order, width, height)[k];
            let image = order[row.first + slot];
            let rect = slot_rect(order, row, slot);
            &&& rect.right - rect.left == image.width
            &&& rect.bottom - rect.top == image.height
            &&& rect.right <= width
            &&& rect.bottom <= height
            &&& rect.bottom == row.bottom()
            &&& rect.left == row.left(slot)
            &&& names_unique(order) ==> {
                &&& atlas_index(order, atlas_rows(order, width, height)).dom().contains(image.name)
                &&& atlas_index(order, atlas_rows(order, width, height))[image.name] == rect
            }
        }),
{
    let rows = atlas_rows(order, width, height);
    let row = rows[k];
    lemma_atlas_rows(order, width, height);
    lemma_atlas_rows_heights(order, width, height);
    assert(slots_exact(order, row, width));
    assert(row_is_shelf(order, row, width, height));
    assert(stacked_at(rows, k, height));
    lemma_ends_ascend(order, row, width, slot, slot);
    assert(order[row.first + slot].wf());
    assert(order[row.first + slot].height <= row.height);
    assert(slot_exact(order, row, width, slot));
    if names_unique(order) {
        assert forall|r: int| 0 <= r < rows.len() implies 0 <= (#[trigger] rows[r]).first
            && rows[r].first + rows[r].ends.len() <= order.len() by {
            assert(slots_exact(order, rows[r], width));
        }
        lemma_index_rows_values(order, rows, rows.len() as int);
    }
}

/// The right edges of a filled row of valid images never decrease to the
/// right, and the row starts at column zero or beyond.
pub proof fn lemma_ends_ascend(
    order: Seq<ImageModel>,
    row: RowModel,
    width: int,
    lower: int,
    upper: int,
)
    requires
        models_valid(order),
        slots_exact(order, row, width),
        0 <= lower <= upper < row.ends.len(),
    ensures
        0 <= row.left(lower) < row.ends[lower] <= row.ends[upper],
    decreases upper,
{
    assert(order[row.first + upper].wf());
    assert(slot_exact(order, row, width, upper));
    if upper > 0 {
        lemma_ends_ascend(order, row, width, 0, upper - 1);
        if lower < upper {
            lemma_ends_ascend(order, row, width, lower, upper - 1);
        }
    }
}

/// Every texel of a placed image is in the composed bitmap, where the
/// image's rectangle says: texel `(tx, ty)` of the image stands `tx`
/// columns right of the rectangle's left edge and `ty` scanlines below its
/// top.
pub proof fn lemma_placed_image_painted(
    order: Seq<ImageModel>,
    width: int,
    height: int,
    base: Color,
    k: int,
    slot: int,
    tx: int,
    ty: int,
)
    requires
        models_valid(order),
        tallest_first(order),
        width <= u32::MAX,
        height <= u32::MAX,
        0 <= k < atlas_rows(order, width, height).len(),
        0 <= slot < atlas_rows(order, width, height)[k].ends.len(),
        0 <= tx < order[atlas_rows(order, width, height)[k].first + slot].width,
        0 <= ty < order[atlas_rows(order, width, height)[k].first + slot].height,
    ensures
        ({
            let rows = atlas_rows(order, width, height);
            let rect = slot_rect(order, rows[k], slot);
            composited(order, rows, base, rect.left + tx, rect.top + ty) == order[rows[k].first
                + slot].texel(tx, ty)
        }),
{
    let rows = atlas_rows(order, width, height);
    let row = rows[k];
    let image = order[row.first + slot];
    let rect = slot_rect(order, row, slot);
    lemma_placed_rect(order, width, height, k, slot);
    lemma_atlas_rows(order, width, height);
    lemma_atlas_rows_heights(order, width, height);
    assert(slots_exact(order, row, width));
    assert(row_is_shelf(order, row, width, height));
    let x = rect.left + tx;
    let y = rect.top + ty;
    assert(slot_exact(order, row, width, slot));
    assert(image.height <= row.height);
    assert(in_band(row, y));
    lemma_band_unique(rows, height, k, y);
    assert(band_of(rows, y) == k);
    lemma_ends_ascend(order, row, width, slot, slot);
    lemma_cursor_stops(row.ends, 0, x);
    let at = slot_cursor(row.ends, x);
    if at < slot {
        lemma_ends_ascend(order, row, width, at, slot - 1);
    }
    assert(at == slot);
    if x > 0 {
        lemma_cursor_stops(row.ends, 0, x - 1);
        let entering = slot_cursor(row.ends, x - 1);
        if entering > slot {
            assert(row.ends[slot] <= x - 1);
        }
    }
    assert(cursor_entering(row.ends, x) < row.ends.len());
    assert(sample(order, row, slot, x, y) == crate::color::Resolved::Sampled(image.texel(tx, ty)));
    assert(resolve(order, row, x, y) == crate::color::Resolved::Sampled(image.texel(tx, ty)));
}

/// The column just past the last image of the row, or zero for a row
/// without images.
pub open spec fn row_end(row: RowModel) -> int {
    if row.ends.len() == 0 {
        0
    } else {
        row.ends.last()
    }
}

/// What a row of a layout shows on one of its scanlines. Under a slot it
/// is the image of the slot, standing on the bottom of the row, and the
/// vertical sentinel above an image that is shorter than the row. The
/// column just past the last image holds the sentinel of the exhausted
/// slots, and every column beyond it, as every column of a row without
/// images, that of the unassigned texel. The sentinel of the index miss
/// does not occur.
pub proof fn lemma_row_picture(
    order: Seq<ImageModel>,
    width: int,
    height: int,
    k: int,
    x: int,
    y: int,
)
    requires
        models_valid(order),
        0 <= k < atlas_rows(order, width, height).len(),
        in_band(atlas_rows(order, width, height)[k], y),
        0 <= x,
    ensures
        ({
            let row = atlas_rows(order, width, height)[k];
            let slot = slot_cursor(row.ends, x);
            let image = order[row.first + slot];
            let seen = resolve(order, row, x, y);
            &&& x > row_end(row) || row.ends.len() == 0 ==> seen == crate::color::Resolved::Unassigned
            &&& x == row_end(row) && row.ends.len() > 0 ==> seen
                == crate::color::Resolved::SlotExhausted
            &&& x < row_end(row) ==> {
                &&& 0 <= slot < row.ends.len()
                &&& row.left(slot) <= x < row.ends[slot]
                &&& row.bottom() - image.height <= y ==> seen == crate::color::Resolved::Sampled(
                    image.texel(x - row.left(slot), y - (row.bottom() - image.height)),
                )
                &&& y < row.bottom() - image.height ==> seen
                    == crate::color::Resolved::VerticalBounds
            }
        }),
{
    let rows = atlas_rows(order, width, height);
    let row = rows[k];
    let slots = row.ends.len() as int;
    lemma_atlas_rows(order, width, height);
    assert(slots_exact(order, row, width));
    assert(row_is_shelf(order, row, width, height));
    lemma_cursor_stops(row.ends, 0, x);
    if x > 0 {
        lemma_cursor_stops(row.ends, 0, x - 1);
    }
    if slots > 0 {
        let last = slots - 1;
        lemma_ends_ascend(order, row, width, last, last);
        let slot = slot_cursor(row.ends, x);
        let entering = cursor_entering(row.ends, x);
        if x < row.ends[last] {
            assert(slot < slots) by {
                if slot >= slots {
                    assert(row.ends[last] <= x);
                }
            }
            assert(entering < slots) by {
                if x > 0 && entering >= slots {
                    assert(row.ends[last] <= x - 1);
                }
            }
            assert(slot_exact(order, row, width, slot));
            if slot > 0 {
                assert(row.ends[slot - 1] <= x);
            }
        } else {
            assert(slot == slots) by {
                if slot < slots {
                    lemma_ends_ascend(order, row, width, slot, last);
                }
            }
            if x == row.ends[last] {
                assert(entering < slots) by {
                    if entering >= slots {
                        assert(row.ends[last] <= x - 1);
                    }
                }
            } else {
                assert(entering == slots) by {
                    if entering < slots {
                        lemma_ends_ascend(order, row, width, entering, last);
                    }
                }
            }
        }
    }
}

/// The heights of the images from position `first` on, added up.
pub open spec fn heights_from(order: Seq<ImageModel>, first: int) -> int
    decreases order.len() - first,
{
    if 0 <= first < order.len() {
        order[first].height + heights_from(order, first + 1)
    } else {
        0
    }
}

/// The heights of fewer images add up to less.
proof fn lemma_heights_shrink(order: Seq<ImageModel>, first: int, later: int)
    requires
        models_valid(order),
        0 <= first < later <= order.len(),
    ensures
        0 <= heights_from(order, later),
        heights_from(order, later) + order[first].height <= heights_from(order, first),
    decreases order.len() - first,
{
    assert(order[first].wf());
    if first + 1 < later {
        lemma_heights_shrink(order, first + 1, later);
        assert(order[first + 1].wf());
    } else if later < order.len() {
        lemma_heights_shrink(order, later, order.len() as int);
    }
}

/// Rows that have room for every image left, were each in a row of its
/// own, hold them all.
proof fn lemma_rows_with_room(order: Seq<ImageModel>, first: int, top: int, width: int, height: int)
    requires
        models_valid(order),
        forall|i: int| 0 <= i < order.len() ==> (#[trigger] order[i]).width <= width,
        0 <= first <= order.len(),
        top + heights_from(order, first) <= height,
    ensures
        placed_after(shelf_rows(order, first, top, width, height), first) == order.len(),
    decreases order.len() - first,
{
    if first < order.len() {
        let image = order[first];
        assert(image.wf());
        lemma_heights_shrink(order, first, order.len() as int);
        let ends = shelf_ends(order, first, 0, width);
        lemma_shelf_ends_len(order, first, 0, width);
        assert(ends.len() >= 1);
        let next = first + ends.len();
        lemma_heights_shrink(order, first, next);
        let rows = shelf_rows(order, first, top, width, height);
        let rest = shelf_rows(order, next, top + image.height, width, height);
        lemma_rows_with_room(order, next, top + image.height, width, height);
        assert(rows =~= seq![rows[0]] + rest);
        if rest.len() > 0 {
            assert(rows.last() == rest.last());
        }
    }
}

/// A sufficient reason for an atlas to hold every image of the order: no
/// image is wider than the atlas, and the atlas is tall enough for all of
/// them one below the other.
pub proof fn lemma_atlas_with_room(order: Seq<ImageModel>, width: int, height: int)
    requires
        models_valid(order),
        forall|i: int| 0 <= i < order.len() ==> (#[trigger] order[i]).width <= width,
        heights_from(order, 0) <= height,
    ensures
        placed_count(atlas_rows(order, width, height)) == order.len(),
{
    lemma_rows_with_room(order, 0, 0, width, height);
}

/// Each image that a chain of rows has placed stands in a slot of one of
/// the rows.
pub proof fn lemma_placed_slot(rows: Seq<RowModel>, count: int, at: int) -> (found: (int, int))
    requires
        rows_chained(rows, 0, 0),
        0 <= count <= rows.len(),
        0 <= at < placed_after(rows.take(count), 0),
    ensures
        0 <= found.0 < count,
        0 <= found.1 < rows[found.0].ends.len(),
        rows[found.0].first + found.1 == at,
    decreases count,
{
    if count == 0 {
        assert(rows.take(0).len() == 0);
        (0, 0)
    } else {
        let row = rows[count - 1];
        assert(rows.take(count).last() == row);
        assert(chained_at(rows, count - 1, 0, 0));
        if at >= row.first {
            (count - 1, at - row.first)
        } else {
            lemma_placed_slot(rows, count - 1, at)
        }
    }
}

/// What an atlas that did not overflow holds of an image that was handed
/// in under a name of its own and is no taller than the cutoff: the index
/// has a rectangle under the image's name, as wide and as tall as the
/// image and inside the atlas; and, unless markers were asked for, each
/// texel of the image is in the bitmap where the rectangle says.
pub proof fn lemma_atlas_holds_image(
    textures: Seq<ImageModel>,
    settings: AtlasSettings,
    atlas: TextureAtlas,
    i: int,
    tx: int,
    ty: int,
)
    requires
        is_atlas_of(textures, settings, atlas),
        models_valid(textures),
        names_unique(textures),
        !atlas.overflow,
        0 <= i < textures.len(),
        textures[i].height <= settings.max_texture_height,
        0 <= tx < textures[i].width,
        0 <= ty < textures[i].height,
    ensures
        atlas.index@.dom().contains(textures[i].name),
        ({
            let rect = atlas.index@[textures[i].name];
            &&& rect.right - rect.left == textures[i].width
            &&& rect.bottom - rect.top == textures[i].height
            &&& rect.right <= settings.width
            &&& rect.bottom <= settings.height
            &&& !settings.debug_atlas ==> atlas.bitmap.texel(rect.left + tx, rect.top + ty)
                == textures[i].texel(tx, ty)
        }),
{
    let max_height = settings.max_texture_height as int;
    let width = settings.width as int;
    let height = settings.height as int;
    let order = packing_order(textures, max_height);
    let rows = atlas_rows(order, width, height);
    lemma_packing_order_members(textures, max_height);
    lemma_packing_order_sorted(textures, max_height);
    lemma_packing_order_names(textures, max_height);
    assert(models_valid(order)) by {
        assert forall|p: int| 0 <= p < order.len() implies (#[trigger] order[p]).wf() by {
            assert(textures.contains(packing_order(textures, max_height)[p]));
            let j = choose|j: int| 0 <= j < textures.len() && textures[j] == order[p];
            assert(textures[j].wf());
        }
    }
    assert(textures[i].wf());
    assert(order.contains(textures[i]));
    let at = choose|at: int| 0 <= at < order.len() && order[at] == textures[i];
    lemma_atlas_rows(order, width, height);
    assert(rows.take(rows.len() as int) =~= rows);
    let found = lemma_placed_slot(rows, rows.len() as int, at);
    let k = found.0;
    let slot = found.1;
    lemma_placed_rect(order, width, height, k, slot);
    lemma_placed_image_painted(order, width, height, Color::blank(), k, slot, tx, ty);
    let rect = slot_rect(order, rows[k], slot);
    assert(atlas.index@[textures[i].name] == rect);
    if !settings.debug_atlas {
        assert(atlas.bitmap.texel(rect.left + tx, rect.top + ty) == crate::atlas::atlas_texel(
            order,
            rows,
            settings,
            rect.left + tx,
            rect.top + ty,
        ));
    }
}

/// Two atlases of the same images, built with the same settings, are the
/// same: texel for texel, entry for entry.
pub proof fn lemma_atlas_deterministic(
    textures: Seq<ImageModel>,
    settings: AtlasSettings,
    one: TextureAtlas,
    other: TextureAtlas,
)
    requires
        is_atlas_of(textures, settings, one),
        is_atlas_of(textures, settings, other),
    ensures
        one.index@ == other.index@,
        one.overflow == other.overflow,
        bitmap_size(one.bitmap) == bitmap_size(other.bitmap),
        bitmap_pixels(one.bitmap) == bitmap_pixels(other.bitmap),
{
    assert forall|p: (int, int)| bitmap_pixels(one.bitmap).dom().contains(p) implies bitmap_pixels(
        one.bitmap,
    )[p] == bitmap_pixels(other.bitmap)[p] by {
        assert(one.bitmap.texel(p.0, p.1) == other.bitmap.texel(p.0, p.1));
    }
    assert(bitmap_pixels(one.bitmap) =~= bitmap_pixels(other.bitmap));
}

} // verus!
