use vstd::prelude::*;
use crate::bitmap::AtlasBitmap;
use crate::color::Color;
use crate::compose::{composite, composited, paintable, slot_fits, slots_fit};
use crate::index::{atlas_index, build_index, indexable, row_indexable, AtlasIndex};
use crate::layout::{
    atlas_rows, lemma_atlas_rows, lemma_atlas_rows_heights, pack_rows, placed_count, row_is_shelf,
    slot_exact, slots_exact, stacked_at, RowModel,
};
use crate::markers::{draw_debug_markers, marked};
use crate::order::{lemma_packing_order_sorted, packing_order, sort_textures};
use crate::source::{confirm_valid, models_valid, ImageModel, SourceImage};

verus! {

/// How an atlas is built.
#[derive(Clone, Copy, Debug)]
pub struct AtlasSettings {
    /// The width of the atlas in texels.
    pub width: u32,
    /// The height of the atlas in texels.
    pub height: u32,
    /// The tallest image that is packed; taller ones are left out.
    pub max_texture_height: u32,
    /// Whether the corners of each placed image are marked in the bitmap.
    pub debug_atlas: bool,
}

impl AtlasSettings {
    /// An atlas of this size can be allocated.
    pub open spec fn wf(self) -> bool {
        AtlasBitmap::fits_memory(self.width, self.height)
    }

    /// Tells whether an atlas of this size can be allocated.
    pub fn is_valid(&self) -> (ok: bool)
        ensures
            ok == self.wf(),
    {
        AtlasBitmap::can_allocate(self.width, self.height)
    }

    /// The usual sizing: 4096 by 8192 texels, images up to 512 texels tall,
    /// no markers.
    pub fn reference() -> (settings: AtlasSettings)
        ensures
            settings.wf(),
            settings.width == 4096,
            settings.height == 8192,
            settings.max_texture_height == 512,
            !settings.debug_atlas,
    {
        AtlasSettings { width: 4096, height: 8192, max_texture_height: 512, debug_atlas: false }
    }
}

/// A finished atlas.
pub struct TextureAtlas {
    /// The composed bitmap.
    pub bitmap: AtlasBitmap,
    /// For each placed image, by name, where it lies in the bitmap.
    pub index: AtlasIndex,
    /// Whether the atlas was too small: the images that found no row are
    /// neither painted nor indexed.
    pub overflow: bool,
}

/// The colour of `(x, y)` in the atlas of a layout: what the rows give
/// there over a blank bitmap and, where markers are asked for, the marker
/// colour on the marks of the indexed rectangles.
pub open spec fn atlas_texel(
    order: Seq<ImageModel>,
    rows: Seq<RowModel>,
    settings: AtlasSettings,
    x: int,
    y: int,
) -> Color {
    if settings.debug_atlas && marked(atlas_index(order, rows), settings.width as int, x, y) {
        Color::marker()
    } else {
        composited(order, rows, Color::blank(), x, y)
    }
}

/// What it is to be the atlas of the given images: the images are brought
/// into packing order and laid out in rows; the bitmap has the size asked
/// for and holds at each position the colour that the layout gives it; the
/// index holds the placed images; and `overflow` tells whether an image
/// was left without a row.
pub open spec fn is_atlas_of(
    textures: Seq<ImageModel>,
    settings: AtlasSettings,
    atlas: TextureAtlas,
) -> bool {
    let order = packing_order(textures, settings.max_texture_height as int);
    let rows = atlas_rows(order, settings.width as int, settings.height as int);
    &&& atlas.bitmap.wf()
    &&& atlas.bitmap.spec_width() == settings.width
    &&& atlas.bitmap.spec_height() == settings.height
    &&& forall|x: int, y: int|
        0 <= x < settings.width && 0 <= y < settings.height ==> #[trigger] atlas.bitmap.texel(
            x,
            y,
        ) == atlas_texel(order, rows, settings, x, y)
    &&& atlas.index@ == atlas_index(order, rows)
    &&& atlas.overflow == (placed_count(rows) < order.len())
}

/// The layout of a packing order of valid images can be painted and
/// indexed.
pub proof fn lemma_atlas_rows_usable(order: Seq<ImageModel>, width: int, height: int)
    requires
        models_valid(order),
        crate::order::tallest_first(order),
        height <= u32::MAX,
    ensures
        paintable(order, atlas_rows(order, width, height), height),
        indexable(order, atlas_rows(order, width, height)),
{
    let rows = atlas_rows(order, width, height);
    lemma_atlas_rows(order, width, height);
    lemma_atlas_rows_heights(order, width, height);
    assert forall|k: int| 0 <= k < rows.len() implies slots_fit(order, #[trigger] rows[k]) by {
        let row = rows[k];
        assert(slots_exact(order, row, width));
        assert forall|slot: int| 0 <= slot < row.ends.len() implies #[trigger] slot_fits(
            order,
            row,
            slot,
        ) by {
            assert(slot_exact(order, row, width, slot));
            assert(order[row.first + slot].wf());
        }
    }
    assert forall|k: int| 0 <= k < rows.len() implies row_indexable(order, #[trigger] rows[k]) by {
        let row = rows[k];
        assert(slots_exact(order, row, width));
        assert(row_is_shelf(order, row, width, height));
        assert(stacked_at(rows, k, height));
    }
}

/// The service that holds the game's assets.
pub struct AssetService {}

impl AssetService {
    /// Packs the images into one atlas: brings them into packing order,
    /// lays them out in rows, paints the bitmap, indexes the placed images
    /// and, where the settings ask for it, stamps the debug markers.
    pub fn generate_texture_atlas(textures: Vec<SourceImage>, settings: &AtlasSettings) -> (atlas:
        TextureAtlas)
        requires
            settings.wf(),
        ensures
            is_atlas_of(textures.deep_view(), *settings, atlas),
    {
        let ghost given = textures.deep_view();
        let order = sort_textures(textures, settings.max_texture_height);
        confirm_valid(&order);
        let ghost models = order.deep_view();
        let layout = pack_rows(&order, settings.width, settings.height);
        let ghost rows = layout.rows.deep_view();
        proof {
            lemma_packing_order_sorted(given, settings.max_texture_height as int);
            lemma_atlas_rows_usable(models, settings.width as int, settings.height as int);
        }
        let index = build_index(&order, &layout.rows);
        let mut bitmap = AtlasBitmap::new(settings.width, settings.height).unwrap();
        let ghost blank = bitmap;
        composite(&order, &layout.rows, &mut bitmap);
        if settings.debug_atlas {
            draw_debug_markers(&mut bitmap, &index);
        }
        TextureAtlas { bitmap, index, overflow: layout.overflow }
    }
}

} // verus!
