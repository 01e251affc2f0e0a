use vstd::prelude::*;
use crate::order::tallest_first;
use crate::source::{ImageModel, SourceImage};

verus! {

/// What a row is: a horizontal shelf of the atlas.
pub ghost struct RowModel {
    /// The position, in the packing order, of the row's first image.
    pub first: int,
    /// The scanline at which the row starts.
    pub top: int,
    /// The number of scanlines of the row.
    pub height: int,
    /// For each image of the row, the column just past its right edge.
    pub ends: Seq<int>,
}

impl RowModel {
    /// The scanline just below the row.
    pub open spec fn bottom(self) -> int {
        self.top + self.height
    }

    /// The column at which slot `slot` starts.
    pub open spec fn left(self, slot: int) -> int {
        if slot <= 0 {
            0
        } else {
            self.ends[slot - 1]
        }
    }
}

/// A row of the atlas: a shelf as tall as its first image, filled from the
/// left.
#[derive(Debug)]
pub struct Row {
    /// The position, in the packing order, of the row's first image.
    pub first: usize,
    /// The scanline at which the row starts.
    pub top: u32,
    /// The number of scanlines of the row.
    pub height: u32,
    /// For each image of the row, the column just past its right edge.
    pub ends: Vec<u32>,
}

impl DeepView for Row {
    type V = RowModel;

    open spec fn deep_view(&self) -> RowModel {
        RowModel {
            first: self.first as int,
            top: self.top as int,
            height: self.height as int,
            ends: self.ends@.map_values(|end: u32| end as int),
        }
    }
}

impl View for Row {
    type V = RowModel;

    open spec fn view(&self) -> RowModel {
        self.deep_view()
    }
}

/// The right edges of the images that fit side by side in `width` columns,
/// taken from position `at` of the order, with `used` columns filled
/// already: the row ends before the first image that would pass the width.
pub open spec fn shelf_ends(order: Seq<ImageModel>, at: int, used: int, width: int) -> Seq<int>
    decreases order.len() - at,
{
    if 0 <= at < order.len() && used + order[at].width <= width {
        seq![used + order[at].width] + shelf_ends(
            order,
            at + 1,
            used + order[at].width,
            width,
        )
    } else {
        Seq::empty()
    }
}

/// The rows that are stacked from scanline `top` on, starting with image
/// `first` of the order. A row is as tall as its first image and takes the
/// images that fit side by side; the next row starts with the image after
/// them. The stack ends with the last image, or before the row that would
/// pass the bottom of the atlas. (No image is without height; the test for
/// it only makes the definition total.)
pub open spec fn shelf_rows(
    order: Seq<ImageModel>,
    first: int,
    top: int,
    width: int,
    height: int,
) -> Seq<RowModel>
    decreases height - top,
{
    if 0 <= first < order.len() && 1 <= order[first].height && top + order[first].height
        <= height {
        let row = RowModel {
            first,
            top,
            height: order[first].height,
            ends: shelf_ends(order, first, 0, width),
        };
        seq![row] + shelf_rows(order, first + row.ends.len(), row.bottom(), width, height)
    } else {
        Seq::empty()
    }
}

/// The layout of a packing order in an atlas of the given size.
pub open spec fn atlas_rows(order: Seq<ImageModel>, width: int, height: int) -> Seq<RowModel> {
    shelf_rows(order, 0, 0, width, height)
}

/// The number of images that the rows hold when they take the images of
/// the order one after the other, starting with image `first`.
pub open spec fn placed_after(rows: Seq<RowModel>, first: int) -> int {
    if rows.len() == 0 {
        first
    } else {
        rows.last().first + rows.last().ends.len()
    }
}

/// The number of images that a layout has placed.
pub open spec fn placed_count(rows: Seq<RowModel>) -> int {
    placed_after(rows, 0)
}

/// The scanline below the last row.
pub open spec fn rows_bottom(rows: Seq<RowModel>) -> int {
    if rows.len() == 0 {
        0
    } else {
        rows.last().bottom()
    }
}

/// The result of packing: the rows, from the top of the atlas down.
#[derive(Debug)]
pub struct Layout {
    /// The rows, from the top of the atlas down.
    pub rows: Vec<Row>,
    /// The number of images placed: the first `placed` of the order.
    pub placed: usize,
    /// Whether the atlas was too small: some image found no row.
    pub overflow: bool,
}

/// A row never holds more images than the order has left.
pub proof fn lemma_shelf_ends_len(order: Seq<ImageModel>, at: int, used: int, width: int)
    requires
        0 <= at <= order.len(),
    ensures
        shelf_ends(order, at, used, width).len() <= order.len() - at,
    decreases order.len() - at,
{
    if at < order.len() && used + order[at].width <= width {
        lemma_shelf_ends_len(order, at + 1, used + order[at].width, width);
    }
}

/// Slot `slot` of the row starts where the slot before it ends, is as
/// wide as its image and ends inside the atlas.
pub open spec fn slot_exact(order: Seq<ImageModel>, row: RowModel, width: int, slot: int) -> bool {
    &&& row.ends[slot] == row.left(slot) + order[row.first + slot].width
    &&& row.ends[slot] <= width
}

/// What holds of a filled row: the order holds an image for each of its
/// slots, and the slots lie side by side, as wide as their images, inside
/// the atlas.
pub open spec fn slots_exact(order: Seq<ImageModel>, row: RowModel, width: int) -> bool {
    &&& 0 <= row.first
    &&& row.first + row.ends.len() <= order.len()
    &&& forall|slot: int|
        0 <= slot < row.ends.len() ==> #[trigger] slot_exact(order, row, width, slot)
}

/// The right edge at position `slot` lies one image's width beyond the
/// edge before it, or beyond `used` at position zero, and inside the atlas.
pub open spec fn edge_follows(
    order: Seq<ImageModel>,
    ends: Seq<int>,
    at: int,
    used: int,
    width: int,
    slot: int,
) -> bool {
    &&& ends[slot] == (if slot == 0 {
        used
    } else {
        ends[slot - 1]
    }) + order[at + slot].width
    &&& ends[slot] <= width
}

/// The slots of a row that was filled from position `at` on, with `used`
/// columns taken already, lie side by side: each starts where the one
/// before it ends, is as wide as its image, and ends inside the atlas.
pub proof fn lemma_shelf_ends_slots(order: Seq<ImageModel>, at: int, used: int, width: int)
    requires
        0 <= at <= order.len(),
    ensures
        shelf_ends(order, at, used, width).len() <= order.len() - at,
        forall|slot: int|
            0 <= slot < shelf_ends(order, at, used, width).len() ==> #[trigger] edge_follows(
                order,
                shelf_ends(order, at, used, width),
                at,
                used,
                width,
                slot,
            ),
    decreases order.len() - at,
{
    let ends = shelf_ends(order, at, used, width);
    if at < order.len() && used + order[at].width <= width {
        let next = used + order[at].width;
        let rest = shelf_ends(order, at + 1, next, width);
        lemma_shelf_ends_slots(order, at + 1, next, width);
        assert forall|slot: int| 0 <= slot < ends.len() implies #[trigger] edge_follows(
            order,
            ends,
            at,
            used,
            width,
            slot,
        ) by {
            if slot > 0 {
                assert(edge_follows(order, rest, at + 1, next, width, slot - 1));
                assert(ends[slot] == rest[slot - 1]);
                if slot > 1 {
                    assert(ends[slot - 1] == rest[slot - 2]);
                }
            }
        }
    }
}

/// What holds of each row of a layout: it is the shelf that starts with
/// its first image, and it lies inside the atlas.
pub open spec fn row_is_shelf(order: Seq<ImageModel>, row: RowModel, width: int, height: int) -> bool {
    &&& 0 <= row.first < order.len()
    &&& row.height == order[row.first].height
    &&& 1 <= row.height
    &&& 0 <= row.top
    &&& row.bottom() <= height
    &&& row.ends == shelf_ends(order, row.first, 0, width)
}

/// Row `k` starts with the image after those of the rows before it, or
/// with image `first`, and lies below the row before it, or at scanline
/// `top`.
pub open spec fn chained_at(rows: Seq<RowModel>, k: int, first: int, top: int) -> bool {
    &&& rows[k].first == placed_after(rows.take(k), first)
    &&& rows[k].top == (if k == 0 {
        top
    } else {
        rows[k - 1].bottom()
    })
}

/// The rows take the images of the order one after the other, from image
/// `first` on, and lie one below the other, from scanline `top` on.
pub open spec fn rows_chained(rows: Seq<RowModel>, first: int, top: int) -> bool {
    forall|k: int| 0 <= k < rows.len() ==> #[trigger] chained_at(rows, k, first, top)
}

/// The rows that are stacked from image `first` and scanline `top` on are
/// shelves, chained to one another.
pub proof fn lemma_shelf_rows_chained(
    order: Seq<ImageModel>,
    first: int,
    top: int,
    width: int,
    height: int,
)
    requires
        0 <= first <= order.len(),
        0 <= top,
    ensures
        rows_chained(shelf_rows(order, first, top, width, height), first, top),
        forall|k: int|
            0 <= k < shelf_rows(order, first, top, width, height).len() ==> row_is_shelf(
                order,
                #[trigger] shelf_rows(order, first, top, width, height)[k],
                width,
                height,
            ),
        first <= placed_after(shelf_rows(order, first, top, width, height), first) <= order.len(),
    decreases height - top,
{
    let rows = shelf_rows(order, first, top, width, height);
    if first < order.len() && 1 <= order[first].height && top + order[first].height <= height {
        let row = rows[0];
        let rest = shelf_rows(order, first + row.ends.len(), row.bottom(), width, height);
        lemma_shelf_ends_len(order, first, 0, width);
        lemma_shelf_rows_chained(order, first + row.ends.len(), row.bottom(), width, height);
        assert forall|k: int| 0 <= k < rows.len() implies row_is_shelf(
            order,
            #[trigger] rows[k],
            width,
            height,
        ) by {
            if k > 0 {
                assert(rows[k] == rest[k - 1]);
            }
        }
        assert forall|k: int| 0 <= k < rows.len() implies #[trigger] chained_at(
            rows,
            k,
            first,
            top,
        ) by {
            if k == 0 {
                assert(rows.take(0).len() == 0);
            } else {
                assert(chained_at(rest, k - 1, first + row.ends.len(), row.bottom()));
                assert(rows[k] == rest[k - 1]);
                assert(rows[k - 1] == if k == 1 {
                    row
                } else {
                    rest[k - 2]
                });
                if k == 1 {
                    assert(rest.take(0).len() == 0);
                    assert(rows.take(1).last() == row);
                } else {
                    assert(rest.take(k - 1).last() == rest[k - 2]);
                    assert(rows.take(k).last() == rows[k - 1]);
                }
            }
        }
        if rest.len() > 0 {
            assert(rows.last() == rest.last());
        } else {
            assert(rows.last() == row);
        }
    }
}

/// Row `k` lies below the row before it, or at the top of the atlas, and
/// ends inside the atlas.
pub open spec fn stacked_at(rows: Seq<RowModel>, k: int, height: int) -> bool {
    &&& rows[k].top == (if k == 0 {
        0
    } else {
        rows[k - 1].bottom()
    })
    &&& 0 <= rows[k].height
    &&& rows[k].bottom() <= height
}

/// A layout's rows lie one below the other from the top of the atlas and
/// end inside it.
pub open spec fn rows_stacked(rows: Seq<RowModel>, height: int) -> bool {
    forall|k: int| 0 <= k < rows.len() ==> #[trigger] stacked_at(rows, k, height)
}

/// What holds of every layout: its rows are shelves, chained
/// to one another and stacked inside the atlas, and each slot is as wide as
/// its image.
pub proof fn lemma_atlas_rows(order: Seq<ImageModel>, width: int, height: int)
    ensures
        rows_chained(atlas_rows(order, width, height), 0, 0),
        rows_stacked(atlas_rows(order, width, height), height),
        0 <= placed_count(atlas_rows(order, width, height)) <= order.len(),
        forall|k: int|
            0 <= k < atlas_rows(order, width, height).len() ==> {
                &&& row_is_shelf(order, #[trigger] atlas_rows(order, width, height)[k], width, height)
                &&& slots_exact(order, atlas_rows(order, width, height)[k], width)
            },
{
    let rows = atlas_rows(order, width, height);
    lemma_shelf_rows_chained(order, 0, 0, width, height);
    assert forall|k: int| 0 <= k < rows.len() implies #[trigger] stacked_at(rows, k, height) by {
        assert(chained_at(rows, k, 0, 0));
        assert(row_is_shelf(order, rows[k], width, height));
    }
    assert forall|k: int| 0 <= k < rows.len() implies slots_exact(
        order,
        #[trigger] rows[k],
        width,
    ) by {
        let row = rows[k];
        assert(row_is_shelf(order, row, width, height));
        lemma_shelf_ends_slots(order, row.first, 0, width);
        assert forall|slot: int| 0 <= slot < row.ends.len() implies #[trigger] slot_exact(
            order,
            row,
            width,
            slot,
        ) by {
            assert(edge_follows(order, row.ends, row.first, 0, width, slot));
        }
    }
}

/// In the layout of a packing order no image is taller than its row.
pub proof fn lemma_atlas_rows_heights(order: Seq<ImageModel>, width: int, height: int)
    requires
        tallest_first(order),
    ensures
        forall|k: int, slot: int|
            0 <= k < atlas_rows(order, width, height).len() && 0 <= slot < atlas_rows(
                order,
                width,
                height,
            )[k].ends.len() ==> (#[trigger] order[atlas_rows(order, width, height)[k].first
                + slot]).height <= atlas_rows(order, width, height)[k].height,
{
    let rows = atlas_rows(order, width, height);
    lemma_atlas_rows(order, width, height);
    assert forall|k: int, slot: int|
        0 <= k < rows.len() && 0 <= slot < rows[k].ends.len() implies (#[trigger] order[rows[k].first
            + slot]).height <= rows[k].height by {
        assert(row_is_shelf(order, rows[k], width, height));
        assert(slots_exact(order, rows[k], width));
    }
}

/// Fills one row: takes images from position `first` on while they fit.
fn fill_row(order: &Vec<SourceImage>, first: usize, width: u32) -> (ends: Vec<u32>)
    requires
        first <= order.len(),
    ensures
        ends@.map_values(|end: u32| end as int) == shelf_ends(
            order.deep_view(),
            first as int,
            0,
            width as int,
        ),
        first + ends.len() <= order.len(),
{
    let ghost models = order.deep_view();
    let ghost whole = shelf_ends(models, first as int, 0, width as int);
    let mut ends: Vec<u32> = Vec::new();
    let mut used: u32 = 0;
    let mut at: usize = first;
    proof {
        assert(ends@.map_values(|end: u32| end as int) =~= Seq::<int>::empty());
    }
    while at < order.len() && order[at].width() <= width - used
        invariant
            first <= at <= order.len(),
            used <= width,
            at == first + ends.len(),
            models == order.deep_view(),
            whole == shelf_ends(models, first as int, 0, width as int),
            ends@.map_values(|end: u32| end as int) + shelf_ends(
                models,
                at as int,
                used as int,
                width as int,
            ) == whole,
        decreases order.len() - at,
    {
        let ghost before = ends@.map_values(|end: u32| end as int);
        let ghost rest = shelf_ends(models, at as int + 1, used + models[at as int].width, width as int);
        used = used + order[at].width();
        ends.push(used);
        at += 1;
        proof {
            assert(ends@.map_values(|end: u32| end as int) =~= before.push(used as int));
            assert(before.push(used as int) + rest =~= before + (seq![used as int] + rest));
        }
    }
    proof {
        assert(shelf_ends(models, at as int, used as int, width as int) =~= Seq::<int>::empty());
        assert(ends@.map_values(|end: u32| end as int) =~= whole);
    }
    ends
}

/// Lays the images of a packing order out in rows, in an atlas of the given
/// size. Packing stops before the first row that would pass the bottom of
/// the atlas; the images from there on are left out and `overflow` is set.
pub fn pack_rows(order: &Vec<SourceImage>, width: u32, height: u32) -> (layout: Layout)
    ensures
        layout.rows.deep_view() == atlas_rows(order.deep_view(), width as int, height as int),
        layout.placed == placed_count(layout.rows.deep_view()),
        layout.placed <= order.len(),
        layout.overflow == (layout.placed < order.len()),
{
    let ghost models = order.deep_view();
    let ghost whole = atlas_rows(models, width as int, height as int);
    let mut rows: Vec<Row> = Vec::new();
    let mut first: usize = 0;
    let mut top: u32 = 0;
    proof {
        assert(rows.deep_view() =~= Seq::<RowModel>::empty());
    }
    while first < order.len() && order[first].height() <= height - top
        invariant
            first <= order.len(),
            top <= height,
            models == order.deep_view(),
            whole == atlas_rows(models, width as int, height as int),
            first == placed_count(rows.deep_view()),
            rows.deep_view() + shelf_rows(
                models,
                first as int,
                top as int,
                width as int,
                height as int,
            ) == whole,
        decreases height - top,
    {
        let ghost before = rows.deep_view();
        let tall = order[first].height();
        let ends = fill_row(order, first, width);
        let count = ends.len();
        let row = Row { first, top, height: tall, ends };
        let ghost model = row.deep_view();
        let ghost rest = shelf_rows(
            models,
            first + count,
            top + tall,
            width as int,
            height as int,
        );
        rows.push(row);
        first = first + count;
        top = top + tall;
        proof {
            assert(rows.deep_view() =~= before.push(model));
            assert(before.push(model) + rest =~= before + (seq![model] + rest));
        }
    }
    proof {
        if first < order.len() {
            let image = &order[first as int];
            assert(models[first as int] == image@);
        }
        assert(shelf_rows(models, first as int, top as int, width as int, height as int)
            =~= Seq::<RowModel>::empty());
        assert(rows.deep_view() =~= whole);
    }
    Layout { rows, placed: first, overflow: first < order.len() }
}

} // verus!
