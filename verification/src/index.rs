use vstd::prelude::*;
use crate::layout::{Row, RowModel};
use crate::source::{ImageModel, SourceImage};

verus! {

/// Where a placed image lies in the atlas, in texels: the columns from
/// `left` up to `right` and the scanlines from `top` up to `bottom`, the
/// upper bounds left out. Divided by the width and the height of the atlas,
/// these are the normalised coordinates of its top left and bottom right
/// corners.
#[derive(Clone, Copy, Debug, PartialEq, Eq, Structural)]
pub struct UvRect {
    pub left: u32,
    pub top: u32,
    pub right: u32,
    pub bottom: u32,
}

/// One entry of the index.
pub struct IndexEntry {
    pub name: String,
    pub rect: UvRect,
}

/// The lookup table of an atlas: for each name, the rectangle of the image
/// placed under it.
pub struct AtlasIndex {
    entries: Vec<IndexEntry>,
}

/// The position of the entry that `name` stands at, if there is one.
pub open spec fn position_of(entries: Seq<IndexEntry>, name: Seq<char>) -> int {
    choose|i: int| 0 <= i < entries.len() && entries[i].name@ == name
}

/// Whether some entry stands under `name`.
pub open spec fn holds_name(entries: Seq<IndexEntry>, name: Seq<char>) -> bool {
    exists|i: int| 0 <= i < entries.len() && (#[trigger] entries[i]).name@ == name
}

/// No two entries stand under one name.
pub open spec fn names_distinct(entries: Seq<IndexEntry>) -> bool {
    forall|i: int, j: int|
        0 <= i < j < entries.len() ==> (#[trigger] entries[i]).name@ != (#[trigger] entries[j]).name@
}

impl View for AtlasIndex {
    type V = Map<Seq<char>, UvRect>;

    closed spec fn view(&self) -> Map<Seq<char>, UvRect> {
        Map::new(
            |name: Seq<char>| holds_name(self.entries@, name),
            |name: Seq<char>| self.entries@[position_of(self.entries@, name)].rect,
        )
    }
}

impl AtlasIndex {
    #[verifier::type_invariant]
    spec fn inv(&self) -> bool {
        names_distinct(self.entries@)
    }

    /// The entries, in the order in which their names were first entered.
    pub closed spec fn entries(&self) -> Seq<IndexEntry> {
        self.entries@
    }

    /// The index is the map of its entries, which stand under distinct
    /// names.
    pub proof fn lemma_entries(&self)
        requires
            names_distinct(self.entries()),
        ensures
            forall|name: Seq<char>| self@.dom().contains(name) <==> holds_name(self.entries(), name),
            forall|i: int|
                0 <= i < self.entries().len() ==> self@.dom().contains(
                    (#[trigger] self.entries()[i]).name@,
                ) && self@[self.entries()[i].name@] == self.entries()[i].rect,
    {
        assert forall|i: int| 0 <= i < self.entries().len() implies self@.dom().contains(
            (#[trigger] self.entries()[i]).name@,
        ) && self@[self.entries()[i].name@] == self.entries()[i].rect by {
            let name = self.entries@[i].name@;
            assert(holds_name(self.entries@, name));
            let at = position_of(self.entries@, name);
            assert(at == i);
        }
    }

    /// The index holds as many names as it has entries.
    pub proof fn lemma_count(&self)
        requires
            names_distinct(self.entries()),
        ensures
            self@.dom().finite(),
            self@.dom().len() == self.entries().len(),
    {
        let names = self.entries@.map_values(|entry: IndexEntry| entry.name@);
        assert(names.no_duplicates()) by {
            assert forall|i: int, j: int|
                0 <= i < names.len() && 0 <= j < names.len() && i != j implies names[i]
                != names[j] by {
                if i < j {
                    assert(self.entries@[i].name@ != self.entries@[j].name@);
                } else {
                    assert(self.entries@[j].name@ != self.entries@[i].name@);
                }
            }
        }
        names.unique_seq_to_set();
        assert(self@.dom() =~= names.to_set()) by {
            assert forall|name: Seq<char>| self@.dom().contains(name) <==> names.to_set().contains(
                name,
            ) by {
                if holds_name(self.entries@, name) {
                    let i = choose|i: int|
                        0 <= i < self.entries@.len() && (#[trigger] self.entries@[i]).name@ == name;
                    assert(names[i] == name);
                }
                if names.contains(name) {
                    let i = choose|i: int| 0 <= i < names.len() && names[i] == name;
                    assert(self.entries@[i].name@ == name);
                }
            }
        }
        vstd::seq_lib::seq_to_set_is_finite(names);
    }

    /// An index without entries.
    pub fn new() -> (index: AtlasIndex)
        ensures
            index@ == Map::<Seq<char>, UvRect>::empty(),
            index.entries().len() == 0,
    {
        let index = AtlasIndex { entries: Vec::new() };
        assert(index@ =~= Map::<Seq<char>, UvRect>::empty());
        index
    }

    /// The number of names.
    pub fn len(&self) -> (n: usize)
        ensures
            n == self@.dom().len(),
            n == self.entries().len(),
            names_distinct(self.entries()),
    {
        proof {
            use_type_invariant(self);
            self.lemma_count();
        }
        self.entries.len()
    }

    /// The entry at position `i`.
    pub fn entry(&self, i: usize) -> (entry: &IndexEntry)
        requires
            i < self.entries().len(),
        ensures
            *entry == self.entries()[i as int],
    {
        &self.entries[i]
    }

    /// The position of the entry under `name`, or the number of entries
    /// where there is none.
    fn find(&self, name: &String) -> (at: usize)
        ensures
            at <= self.entries@.len(),
            at < self.entries@.len() ==> self.entries@[at as int].name@ == name@,
            at == self.entries@.len() ==> !holds_name(self.entries@, name@),
    {
        let mut at: usize = 0;
        while at < self.entries.len() && !(self.entries[at].name == *name)
            invariant
                at <= self.entries@.len(),
                forall|i: int| 0 <= i < at ==> (#[trigger] self.entries@[i]).name@ != name@,
            decreases self.entries@.len() - at,
        {
            at += 1;
        }
        at
    }

    /// The rectangle under `name`, if the index holds the name.
    pub fn get(&self, name: &str) -> (found: Option<UvRect>)
        ensures
            found == if self@.dom().contains(name@) {
                Some(self@[name@])
            } else {
                None
            },
    {
        proof {
            use_type_invariant(self);
            self.lemma_entries();
        }
        let key = name.to_owned();
        let at = self.find(&key);
        if at < self.entries.len() {
            Some(self.entries[at].rect)
        } else {
            None
        }
    }

    /// Puts `rect` under `name`, in place of what stood there.
    pub fn insert(&mut self, name: String, rect: UvRect)
        ensures
            final(self)@ == old(self)@.insert(name@, rect),
    {
        proof {
            use_type_invariant(&*self);
        }
        let ghost before = self.entries@;
        let ghost key = name@;
        let at = self.find(&name);
        let mut entries: Vec<IndexEntry> = Vec::new();
        core::mem::swap(&mut self.entries, &mut entries);
        if at < entries.len() {
            entries.set(at, IndexEntry { name, rect });
        } else {
            entries.push(IndexEntry { name, rect });
        }
        assert(names_distinct(entries@));
        core::mem::swap(&mut self.entries, &mut entries);
        proof {
            let after = self.entries@;
            assert forall|n: Seq<char>| holds_name(after, n) <==> (n == key || holds_name(
                before,
                n,
            )) by {
                if holds_name(after, n) {
                    let i = choose|i: int| 0 <= i < after.len() && (#[trigger] after[i]).name@ == n;
                    if i != at {
                        assert(before[i].name@ == n);
                    }
                }
                if holds_name(before, n) {
                    let i = choose|i: int|
                        0 <= i < before.len() && (#[trigger] before[i]).name@ == n;
                    assert(after[i].name@ == n);
                }
                if n == key {
                    assert(after[at as int].name@ == n);
                }
            }
            assert forall|n: Seq<char>| holds_name(after, n) implies after[position_of(
                after,
                n,
            )].rect == (if n == key {
                rect
            } else {
                before[position_of(before, n)].rect
            }) by {
                let i = position_of(after, n);
                if n == key {
                    assert(after[at as int].name@ == n);
                    assert(i == at);
                } else {
                    assert(before[i].name@ == n);
                    let j = position_of(before, n);
                    assert(after[j].name@ == n);
                    assert(i == j);
                }
            }
            assert(self@ =~= old(self)@.insert(key, rect));
        }
    }
}

/// The rectangle of the image in slot `slot` of the row: as wide as the
/// slot, as tall as the image, and standing on the bottom of the row.
pub open spec fn slot_rect(order: Seq<ImageModel>, row: RowModel, slot: int) -> UvRect {
    UvRect {
        left: row.left(slot) as u32,
        top: (row.bottom() - order[row.first + slot].height) as u32,
        right: row.ends[slot] as u32,
        bottom: row.bottom() as u32,
    }
}

/// The index `base` with the images of the first `slots` slots of the row
/// entered, one after the other.
pub open spec fn index_row(
    base: Map<Seq<char>, UvRect>,
    order: Seq<ImageModel>,
    row: RowModel,
    slots: int,
) -> Map<Seq<char>, UvRect>
    decreases slots,
{
    if slots <= 0 {
        base
    } else {
        index_row(base, order, row, slots - 1).insert(
            order[row.first + slots - 1].name,
            slot_rect(order, row, slots - 1),
        )
    }
}

/// The index of the images of the first `count` rows.
pub open spec fn index_rows(order: Seq<ImageModel>, rows: Seq<RowModel>, count: int) -> Map<
    Seq<char>,
    UvRect,
>
    decreases count,
{
    if count <= 0 {
        Map::empty()
    } else {
        index_row(
            index_rows(order, rows, count - 1),
            order,
            rows[count - 1],
            rows[count - 1].ends.len() as int,
        )
    }
}

/// The index of a layout: each placed image under its name.
pub open spec fn atlas_index(order: Seq<ImageModel>, rows: Seq<RowModel>) -> Map<
    Seq<char>,
    UvRect,
> {
    index_rows(order, rows, rows.len() as int)
}

/// The images of a row can be indexed: the order holds an image for each
/// slot, none of them taller than the distance from the top of the atlas to
/// the bottom of the row.
pub open spec fn row_indexable(order: Seq<ImageModel>, row: RowModel) -> bool {
    &&& 0 <= row.first
    &&& row.first + row.ends.len() <= order.len()
    &&& row.bottom() <= u32::MAX
    &&& forall|slot: int|
        0 <= slot < row.ends.len() ==> (#[trigger] order[row.first + slot]).height
            <= row.bottom()
}

/// Every row of the layout can be indexed.
pub open spec fn indexable(order: Seq<ImageModel>, rows: Seq<RowModel>) -> bool {
    forall|k: int| 0 <= k < rows.len() ==> row_indexable(order, #[trigger] rows[k])
}

/// Tells whether every row of the layout can be indexed.
pub fn is_indexable(order: &Vec<SourceImage>, rows: &Vec<Row>) -> (ok: bool)
    ensures
        ok == indexable(order.deep_view(), rows.deep_view()),
{
    let ghost models = order.deep_view();
    let ghost stack = rows.deep_view();
    let count = order.len();
    let mut k: usize = 0;
    while k < rows.len()
        invariant
            models == order.deep_view(),
            stack == rows.deep_view(),
            count == order.len(),
            k <= rows.len(),
            forall|r: int| 0 <= r < k ==> row_indexable(models, #[trigger] stack[r]),
        decreases rows.len() - k,
    {
        let row = &rows[k];
        let ghost model = stack[k as int];
        proof {
            assert(model == row@);
        }
        let slots = row.ends.len();
        if row.first > count || slots > count - row.first {
            assert(!row_indexable(models, stack[k as int]));
            return false;
        }
        let bottom = match row.top.checked_add(row.height) {
            Some(bottom) => bottom,
            None => {
                assert(!row_indexable(models, stack[k as int]));
                return false;
            },
        };
        let mut slot: usize = 0;
        while slot < slots
            invariant
                models == order.deep_view(),
                stack == rows.deep_view(),
                model == row@,
                model == stack[k as int],
                k < rows.len(),
                count == order.len(),
                slots == row.ends.len(),
                row.first + slots <= count,
                bottom == model.bottom(),
                slot <= slots,
                forall|s: int|
                    0 <= s < slot ==> (#[trigger] models[model.first + s]).height <= model.bottom(),
            decreases slots - slot,
        {
            let image = &order[row.first + slot];
            assert(image@ == models[model.first + slot]);
            if image.height() > bottom {
                assert(!row_indexable(models, stack[k as int]));
                return false;
            }
            slot += 1;
        }
        assert(row_indexable(models, stack[k as int]));
        k += 1;
    }
    true
}

/// Enters each placed image of a layout under its name, with the rectangle
/// of its slot. Where two images have one name, the later one stays.
pub fn build_index(order: &Vec<SourceImage>, rows: &Vec<Row>) -> (index: AtlasIndex)
    requires
        indexable(order.deep_view(), rows.deep_view()),
    ensures
        index@ == atlas_index(order.deep_view(), rows.deep_view()),
{
    let ghost models = order.deep_view();
    let ghost stack = rows.deep_view();
    let count = order.len();
    let mut index = AtlasIndex::new();
    let mut k: usize = 0;
    while k < rows.len()
        invariant
            count == order.len(),
            models == order.deep_view(),
            stack == rows.deep_view(),
            indexable(models, stack),
            k <= rows.len(),
            index@ == index_rows(models, stack, k as int),
        decreases rows.len() - k,
    {
        let row = &rows[k];
        let ghost model = stack[k as int];
        let ghost base = index@;
        proof {
            assert(model == row@);
            assert(row_indexable(models, model));
        }
        let bottom = row.top + row.height;
        let mut slot: usize = 0;
        while slot < row.ends.len()
            invariant
                count == order.len(),
                models == order.deep_view(),
                model == row@,
                row_indexable(models, model),
                bottom == model.bottom(),
                slot <= row.ends.len(),
                index@ == index_row(base, models, model, slot as int),
            decreases row.ends.len() - slot,
        {
            let image = &order[row.first + slot];
            proof {
                assert(image@ == models[model.first + slot]);
                assert(model.ends[slot as int] == row.ends[slot as int]);
                if slot > 0 {
                    assert(model.ends[slot as int - 1] == row.ends[slot as int - 1]);
                }
            }
            let left = if slot == 0 {
                0
            } else {
                row.ends[slot - 1]
            };
            let rect = UvRect {
                left,
                top: bottom - image.height(),
                right: row.ends[slot],
                bottom,
            };
            index.insert(image.name().clone(), rect);
            slot += 1;
        }
        k += 1;
    }
    index
}

} // verus!
