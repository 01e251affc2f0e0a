use vstd::prelude::*;
use crate::bitmap::AtlasBitmap;
use crate::color::{Color, Resolved};
use crate::layout::{rows_bottom, rows_stacked, stacked_at, Row, RowModel};
use crate::source::{ImageModel, SourceImage};

verus! {

/// The first slot from `slot` on whose right edge lies beyond column `x`,
/// or the number of slots where there is none.
pub open spec fn cursor_from(ends: Seq<int>, slot: int, x: int) -> int
    decreases ends.len() - slot,
{
    if 0 <= slot < ends.len() && ends[slot] <= x {
        cursor_from(ends, slot + 1, x)
    } else {
        slot
    }
}

/// Where the cursor of a scanline stands once it has dealt with column `x`:
/// at the first slot whose right edge lies beyond `x`.
pub open spec fn slot_cursor(ends: Seq<int>, x: int) -> int {
    cursor_from(ends, 0, x)
}

/// Where the cursor of a scanline stands when it comes to column `x`: at
/// the first slot in column zero, and where the column before left it in
/// every other.
pub open spec fn cursor_entering(ends: Seq<int>, x: int) -> int {
    if x <= 0 {
        0
    } else {
        slot_cursor(ends, x - 1)
    }
}

/// What slot `slot` of the row gives at `(x, y)`: the texel of its image,
/// measured from the right edge of the slot and from the bottom of the row.
pub open spec fn sample(order: Seq<ImageModel>, row: RowModel, slot: int, x: int, y: int) -> Resolved {
    if 0 <= row.first + slot < order.len() {
        let image = order[row.first + slot];
        let tx = x - (row.ends[slot] - image.width);
        let ty = y - (row.bottom() - image.height);
        if 0 <= ty < image.height {
            Resolved::Sampled(image.texel(tx, ty))
        } else {
            Resolved::VerticalBounds
        }
    } else {
        Resolved::IndexMiss
    }
}

/// What the row gives at column `x` of its scanline `y`.
pub open spec fn resolve(order: Seq<ImageModel>, row: RowModel, x: int, y: int) -> Resolved {
    if cursor_entering(row.ends, x) >= row.ends.len() {
        Resolved::Unassigned
    } else if slot_cursor(row.ends, x) >= row.ends.len() {
        Resolved::SlotExhausted
    } else {
        sample(order, row, slot_cursor(row.ends, x), x, y)
    }
}

/// Scanline `y` belongs to the row.
pub open spec fn in_band(row: RowModel, y: int) -> bool {
    row.top <= y < row.bottom()
}

/// Scanline `y` belongs to one of the rows.
pub open spec fn banded(rows: Seq<RowModel>, y: int) -> bool {
    exists|k: int| 0 <= k < rows.len() && in_band(#[trigger] rows[k], y)
}

/// The row that scanline `y` belongs to.
pub open spec fn band_of(rows: Seq<RowModel>, y: int) -> int {
    choose|k: int| 0 <= k < rows.len() && in_band(#[trigger] rows[k], y)
}

/// The colour of `(x, y)` once the rows are painted over a texel `base`:
/// what the row of the scanline gives there, and `base` below the last row.
pub open spec fn composited(
    order: Seq<ImageModel>,
    rows: Seq<RowModel>,
    base: Color,
    x: int,
    y: int,
) -> Color {
    if banded(rows, y) {
        resolve(order, rows[band_of(rows, y)], x, y).paint()
    } else {
        base
    }
}

/// Slot `slot` of the row does not end left of where it starts, and is no
/// wider than its image, if the order holds that image.
pub open spec fn slot_fits(order: Seq<ImageModel>, row: RowModel, slot: int) -> bool {
    &&& row.left(slot) <= row.ends[slot]
    &&& (0 <= row.first + slot < order.len() ==> row.ends[slot] - row.left(slot)
        <= order[row.first + slot].width)
}

/// Each slot of the row starts where the one before it ends and is no
/// wider than its image, as far as the order holds that image.
pub open spec fn slots_fit(order: Seq<ImageModel>, row: RowModel) -> bool {
    forall|slot: int| 0 <= slot < row.ends.len() ==> #[trigger] slot_fits(order, row, slot)
}

/// A layout that can be painted on a bitmap of the given height: its rows
/// are stacked inside the bitmap and the slots of each fit their images.
pub open spec fn paintable(order: Seq<ImageModel>, rows: Seq<RowModel>, height: int) -> bool {
    &&& rows_stacked(rows, height)
    &&& forall|k: int| 0 <= k < rows.len() ==> slots_fit(order, #[trigger] rows[k])
}

/// A cursor that has dealt with one column is where it would be, had it
/// started on a later column from there.
pub proof fn lemma_cursor_resumes(ends: Seq<int>, slot: int, x: int, later: int)
    requires
        x <= later,
    ensures
        cursor_from(ends, cursor_from(ends, slot, x), later) == cursor_from(ends, slot, later),
    decreases ends.len() - slot,
{
    if 0 <= slot < ends.len() && ends[slot] <= x {
        lemma_cursor_resumes(ends, slot + 1, x, later);
    }
}

/// Where the cursor stops: on a slot that ends beyond the column, behind
/// slots that do not.
pub proof fn lemma_cursor_stops(ends: Seq<int>, slot: int, x: int)
    requires
        0 <= slot <= ends.len(),
    ensures
        slot <= cursor_from(ends, slot, x) <= ends.len(),
        cursor_from(ends, slot, x) < ends.len() ==> ends[cursor_from(ends, slot, x)] > x,
        forall|s: int| slot <= s < cursor_from(ends, slot, x) ==> #[trigger] ends[s] <= x,
    decreases ends.len() - slot,
{
    if slot < ends.len() && ends[slot] <= x {
        lemma_cursor_stops(ends, slot + 1, x);
    }
}

/// Rows that are stacked lie in the order of their scanlines.
pub proof fn lemma_stacked_apart(rows: Seq<RowModel>, height: int, upper: int, lower: int)
    requires
        rows_stacked(rows, height),
        0 <= upper < lower < rows.len(),
    ensures
        0 <= rows[upper].top,
        rows[upper].bottom() <= rows[lower].top,
    decreases lower - upper,
{
    assert(stacked_at(rows, lower, height));
    assert(stacked_at(rows, lower - 1, height));
    if upper + 1 < lower {
        lemma_stacked_apart(rows, height, upper, lower - 1);
    }
    lemma_stacked_top(rows, height, upper);
}

/// No row of a stack starts above the bitmap.
pub proof fn lemma_stacked_top(rows: Seq<RowModel>, height: int, k: int)
    requires
        rows_stacked(rows, height),
        0 <= k < rows.len(),
    ensures
        0 <= rows[k].top,
    decreases k,
{
    assert(stacked_at(rows, k, height));
    if k > 0 {
        lemma_stacked_top(rows, height, k - 1);
        assert(stacked_at(rows, k - 1, height));
    }
}

/// A scanline belongs to one row of a stack at most, and to none from the
/// bottom of the stack on.
pub proof fn lemma_band_unique(rows: Seq<RowModel>, height: int, k: int, y: int)
    requires
        rows_stacked(rows, height),
        0 <= k < rows.len(),
        in_band(rows[k], y),
    ensures
        banded(rows, y),
        band_of(rows, y) == k,
        0 <= y < rows_bottom(rows),
{
    let found = band_of(rows, y);
    if found < k {
        lemma_stacked_apart(rows, height, found, k);
    } else if k < found {
        lemma_stacked_apart(rows, height, k, found);
    }
    lemma_stacked_top(rows, height, k);
    assert(stacked_at(rows, rows.len() - 1, height));
    if k < rows.len() - 1 {
        lemma_stacked_apart(rows, height, k, rows.len() - 1);
    }
}

/// Tells whether the slots of a row fit their images.
fn row_fits(order: &Vec<SourceImage>, row: &Row) -> (ok: bool)
    ensures
        ok == slots_fit(order.deep_view(), row@),
{
    let ghost models = order.deep_view();
    let count = order.len();
    let mut slot: usize = 0;
    while slot < row.ends.len()
        invariant
            models == order.deep_view(),
            count == order.len(),
            slot <= row.ends.len(),
            forall|s: int| 0 <= s < slot ==> #[trigger] slot_fits(models, row@, s),
        decreases row.ends.len() - slot,
    {
        let left = if slot == 0 {
            0
        } else {
            row.ends[slot - 1]
        };
        let end = row.ends[slot];
        proof {
            assert(row@.ends[slot as int] == end);
            assert(row@.left(slot as int) == left);
        }
        if end < left {
            assert(!slot_fits(models, row@, slot as int));
            return false;
        }
        match row.first.checked_add(slot) {
            None => {},
            Some(at) => {
                if at < count {
                    let image = &order[at];
                    assert(image@ == models[row@.first + slot]);
                    if end - left > image.width() {
                        assert(!slot_fits(models, row@, slot as int));
                        return false;
                    }
                }
            },
        }
        assert(slot_fits(models, row@, slot as int));
        slot += 1;
    }
    true
}

/// Tells whether a layout can be painted on a bitmap of the given height.
pub fn is_paintable(order: &Vec<SourceImage>, rows: &Vec<Row>, height: u32) -> (ok: bool)
    ensures
        ok == paintable(order.deep_view(), rows.deep_view(), height as int),
{
    let ghost models = order.deep_view();
    let ghost stack = rows.deep_view();
    let mut top: u32 = 0;
    let mut k: usize = 0;
    while k < rows.len()
        invariant
            models == order.deep_view(),
            stack == rows.deep_view(),
            k <= rows.len(),
            top <= height,
            top == rows_bottom(stack.take(k as int)),
            forall|r: int| 0 <= r < k ==> #[trigger] stacked_at(stack, r, height as int),
            forall|r: int| 0 <= r < k ==> slots_fit(models, #[trigger] stack[r]),
        decreases rows.len() - k,
    {
        let row = &rows[k];
        proof {
            assert(stack[k as int] == row@);
            if k > 0 {
                assert(stack.take(k as int).last() == stack[k as int - 1]);
            }
            assert(stack.take(k as int + 1).last() == stack[k as int]);
        }
        if row.top != top || row.height > height - top {
            assert(!stacked_at(stack, k as int, height as int));
            return false;
        }
        if !row_fits(order, row) {
            return false;
        }
        assert(stacked_at(stack, k as int, height as int));
        top = top + row.height;
        k += 1;
    }
    true
}

/// What slot `slot` of the row gives at `(x, y)`.
fn sample_slot(order: &Vec<SourceImage>, row: &Row, slot: usize, x: u32, y: u32) -> (outcome:
    Resolved)
    requires
        slot < row.ends.len(),
        row@.left(slot as int) <= x < row@.ends[slot as int],
        in_band(row@, y as int),
        row@.bottom() <= u32::MAX,
        slots_fit(order.deep_view(), row@),
    ensures
        outcome == sample(order.deep_view(), row@, slot as int, x as int, y as int),
{
    let count = order.len();
    assert(slot_fits(order.deep_view(), row@, slot as int));
    match row.first.checked_add(slot) {
        None => Resolved::IndexMiss,
        Some(at) => {
            if at >= count {
                Resolved::IndexMiss
            } else {
                let image = &order[at];
                let width = image.width();
                let height = image.height();
                let end = row.ends[slot];
                assert(end == row@.ends[slot as int]);
                assert(image@ == order.deep_view()[row@.first + slot]);
                let below = row.top + row.height - y;
                assert(below == row@.bottom() - y);
                if below <= height {
                    let tx = width - (end - x);
                    let ty = height - below;
                    Resolved::Sampled(image.texel(tx, ty))
                } else {
                    Resolved::VerticalBounds
                }
            }
        },
    }
}

/// Paints scanline `y` of the bitmap as the row gives it.
fn paint_scanline(order: &Vec<SourceImage>, row: &Row, bitmap: &mut AtlasBitmap, y: u32)
    requires
        old(bitmap).wf(),
        y < old(bitmap).spec_height(),
        in_band(row@, y as int),
        row@.bottom() <= u32::MAX,
        slots_fit(order.deep_view(), row@),
    ensures
        final(bitmap).wf(),
        final(bitmap).spec_width() == old(bitmap).spec_width(),
        final(bitmap).spec_height() == old(bitmap).spec_height(),
        forall|px: int, py: int|
            0 <= px < final(bitmap).spec_width() && 0 <= py < final(bitmap).spec_height()
                ==> #[trigger] final(bitmap).texel(px, py) == (if py == y {
                resolve(order.deep_view(), row@, px, py).paint()
            } else {
                old(bitmap).texel(px, py)
            }),
{
    let ghost models = order.deep_view();
    let ghost ends = row@.ends;
    let width = bitmap.width();
    let slots = row.ends.len();
    let mut cursor: usize = 0;
    let mut x: u32 = 0;
    while x < width
        invariant
            bitmap.wf(),
            bitmap.spec_width() == old(bitmap).spec_width() == width,
            bitmap.spec_height() == old(bitmap).spec_height(),
            y < bitmap.spec_height(),
            in_band(row@, y as int),
            row@.bottom() <= u32::MAX,
            slots_fit(order.deep_view(), row@),
            models == order.deep_view(),
            ends == row@.ends,
            slots == row.ends.len(),
            x <= width,
            cursor <= slots,
            cursor == cursor_entering(ends, x as int),
            forall|px: int, py: int|
                0 <= px < bitmap.spec_width() && 0 <= py < bitmap.spec_height()
                    ==> #[trigger] bitmap.texel(px, py) == (if py == y && px < x {
                    resolve(models, row@, px, py).paint()
                } else {
                    old(bitmap).texel(px, py)
                }),
        decreases width - x,
    {
        let ghost entering = cursor as int;
        let outcome = if cursor >= slots {
            proof {
                lemma_cursor_resumes(ends, 0, x as int - 1, x as int);
            }
            Resolved::Unassigned
        } else {
            while cursor < slots && row.ends[cursor] <= x
                invariant
                    ends == row@.ends,
                    slots == row.ends.len(),
                    0 <= entering <= cursor <= slots,
                    cursor_from(ends, cursor as int, x as int) == cursor_from(
                        ends,
                        entering,
                        x as int,
                    ),
                    forall|s: int| entering <= s < cursor ==> #[trigger] ends[s] <= x,
                decreases slots - cursor,
            {
                cursor += 1;
            }
            proof {
                if x > 0 {
                    lemma_cursor_resumes(ends, 0, x as int - 1, x as int);
                    lemma_cursor_stops(ends, 0, x as int - 1);
                }
                assert(cursor == slot_cursor(ends, x as int));
            }
            if cursor >= slots {
                Resolved::SlotExhausted
            } else {
                proof {
                    if cursor > 0 {
                        if cursor as int > entering {
                            assert(ends[cursor as int - 1] <= x);
                        } else {
                            assert(x > 0);
                            lemma_cursor_stops(ends, 0, x as int - 1);
                            assert(ends[cursor as int - 1] <= x as int - 1);
                        }
                    }
                }
                sample_slot(order, row, cursor, x, y)
            }
        };
        assert(outcome == resolve(models, row@, x as int, y as int));
        let ghost before = *bitmap;
        bitmap.put(x, y, outcome.color());
        proof {
            assert forall|px: int, py: int|
                0 <= px < bitmap.spec_width() && 0 <= py < bitmap.spec_height()
                    implies #[trigger] bitmap.texel(px, py) == (if py == y && px < x + 1 {
                    resolve(models, row@, px, py).paint()
                } else {
                    old(bitmap).texel(px, py)
                }) by {
                assert(before.texel(px, py) == (if py == y && px < x {
                    resolve(models, row@, px, py).paint()
                } else {
                    old(bitmap).texel(px, py)
                }));
            }
        }
        x += 1;
    }
}

/// Paints the scanlines of one row.
fn paint_row(order: &Vec<SourceImage>, row: &Row, bitmap: &mut AtlasBitmap)
    requires
        old(bitmap).wf(),
        0 <= row@.height,
        row@.bottom() <= old(bitmap).spec_height(),
        slots_fit(order.deep_view(), row@),
    ensures
        final(bitmap).wf(),
        final(bitmap).spec_width() == old(bitmap).spec_width(),
        final(bitmap).spec_height() == old(bitmap).spec_height(),
        forall|px: int, py: int|
            0 <= px < final(bitmap).spec_width() && 0 <= py < final(bitmap).spec_height()
                ==> #[trigger] final(bitmap).texel(px, py) == (if in_band(row@, py) {
                resolve(order.deep_view(), row@, px, py).paint()
            } else {
                old(bitmap).texel(px, py)
            }),
{
    let bottom = row.top + row.height;
    let mut y: u32 = row.top;
    while y < bottom
        invariant
            bitmap.wf(),
            bitmap.spec_width() == old(bitmap).spec_width(),
            bitmap.spec_height() == old(bitmap).spec_height(),
            bottom == row@.bottom(),
            bottom <= bitmap.spec_height(),
            slots_fit(order.deep_view(), row@),
            row.top <= y <= bottom,
            forall|px: int, py: int|
                0 <= px < bitmap.spec_width() && 0 <= py < bitmap.spec_height()
                    ==> #[trigger] bitmap.texel(px, py) == (if row.top <= py < y {
                    resolve(order.deep_view(), row@, px, py).paint()
                } else {
                    old(bitmap).texel(px, py)
                }),
        decreases bottom - y,
    {
        let ghost before = *bitmap;
        paint_scanline(order, row, bitmap, y);
        proof {
            assert forall|px: int, py: int|
                0 <= px < bitmap.spec_width() && 0 <= py < bitmap.spec_height()
                    implies #[trigger] bitmap.texel(px, py) == (if row.top <= py < y + 1 {
                    resolve(order.deep_view(), row@, px, py).paint()
                } else {
                    old(bitmap).texel(px, py)
                }) by {
                assert(before.texel(px, py) == (if row.top <= py < y {
                    resolve(order.deep_view(), row@, px, py).paint()
                } else {
                    old(bitmap).texel(px, py)
                }));
            }
        }
        y += 1;
    }
}

/// Paints the rows of a layout on the bitmap, scanline by scanline: each
/// texel of a row's band becomes what the row gives there, and what lies
/// below the last row stays as it was.
pub fn composite(order: &Vec<SourceImage>, rows: &Vec<Row>, bitmap: &mut AtlasBitmap)
    requires
        old(bitmap).wf(),
        paintable(order.deep_view(), rows.deep_view(), old(bitmap).spec_height()),
    ensures
        final(bitmap).wf(),
        final(bitmap).spec_width() == old(bitmap).spec_width(),
        final(bitmap).spec_height() == old(bitmap).spec_height(),
        forall|x: int, y: int|
            0 <= x < final(bitmap).spec_width() && 0 <= y < final(bitmap).spec_height()
                ==> #[trigger] final(bitmap).texel(x, y) == composited(
                order.deep_view(),
                rows.deep_view(),
                old(bitmap).texel(x, y),
                x,
                y,
            ),
{
    let ghost models = order.deep_view();
    let ghost stack = rows.deep_view();
    let ghost height = bitmap.spec_height();
    let mut k: usize = 0;
    while k < rows.len()
        invariant
            bitmap.wf(),
            bitmap.spec_width() == old(bitmap).spec_width(),
            bitmap.spec_height() == old(bitmap).spec_height() == height,
            models == order.deep_view(),
            stack == rows.deep_view(),
            paintable(models, stack, height),
            k <= rows.len(),
            forall|x: int, y: int|
                0 <= x < bitmap.spec_width() && 0 <= y < bitmap.spec_height()
                    ==> #[trigger] bitmap.texel(x, y) == (if y < rows_bottom(stack.take(k as int)) {
                    composited(models, stack, old(bitmap).texel(x, y), x, y)
                } else {
                    old(bitmap).texel(x, y)
                }),
        decreases rows.len() - k,
    {
        let ghost before = *bitmap;
        let row = &rows[k];
        proof {
            assert(stack[k as int] == row@);
            assert(slots_fit(models, stack[k as int]));
            assert(stacked_at(stack, k as int, height));
            if k > 0 {
                assert(stack.take(k as int).last() == stack[k as int - 1]);
            }
            assert(stack.take(k as int + 1).last() == stack[k as int]);
            assert(row@.top == rows_bottom(stack.take(k as int)));
        }
        paint_row(order, row, bitmap);
        proof {
            assert forall|x: int, y: int|
                0 <= x < bitmap.spec_width() && 0 <= y < bitmap.spec_height()
                    implies #[trigger] bitmap.texel(x, y) == (if y < rows_bottom(
                    stack.take(k as int + 1),
                ) {
                    composited(models, stack, old(bitmap).texel(x, y), x, y)
                } else {
                    old(bitmap).texel(x, y)
                }) by {
                assert(before.texel(x, y) == (if y < rows_bottom(stack.take(k as int)) {
                    composited(models, stack, old(bitmap).texel(x, y), x, y)
                } else {
                    old(bitmap).texel(x, y)
                }));
                if in_band(row@, y) {
                    lemma_band_unique(stack, height, k as int, y);
                }
            }
        }
        k += 1;
    }
    proof {
        assert(stack.take(rows.len() as int) =~= stack);
        assert forall|x: int, y: int|
            0 <= x < bitmap.spec_width() && 0 <= y < bitmap.spec_height()
                implies #[trigger] bitmap.texel(x, y) == composited(
                models,
                stack,
                old(bitmap).texel(x, y),
                x,
                y,
            ) by {
            if banded(stack, y) {
                lemma_band_unique(stack, height, band_of(stack, y), y);
            }
        }
    }
}

} // verus!
