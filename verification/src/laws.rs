//! What holds of the library as a whole.
use vstd::arithmetic::div_mod::{lemma_fundamental_div_mod, lemma_fundamental_div_mod_converse};
use vstd::prelude::*;
use vstd::utf8::encode_utf8;

use crate::asset_loader::{
    alpha_mode_of, asset_fits, asset_is_small, atlas_size, holds_asset, index_texture_of,
    is_plan_of, is_png_of, is_stored, loaded_imposter, palette_texture_of, picture_of,
    settings_entry, textures_of, AssetPlan, ImposterLoaderSettings, LoadFault,
};
use crate::atlas::{law_marked_pixels, lemma_pixel_in_bounds, pixel_start, Image};
use crate::indexed::{
    are_images_of, block_rows, block_side, distinct_pixels, index_columns, is_block_side,
    is_index_picture, is_narrow, is_palette_picture, lemma_block_full, lemma_block_rows,
    lemma_block_side, lemma_block_side_unique, palette_slots, sorted_palette, storable,
    stored_index, worth_indexing, AssetImages, Picture,
};
use crate::math::{FloatBits, UVec2, Vec2, Vec4, ZERO_BITS};
use crate::oct_coords::GridMode;
use crate::pack::{
    column_used, is_packed, is_span, lemma_source_place, lemma_tiles_fit, packable, row_used,
    source_place, tile_side,
};
use crate::palette::{
    is_palette, key_bytes, law_pixels_compare_byte_by_byte, lemma_key_bytes, lemma_palette_len,
    pixel_key, pixel_keys,
};
use crate::png::{lemma_filtered_bytes, png_pixels};
use crate::progress::{
    frame_end, is_ready, reported, tiles_after, BakeAction, BakeFrame, BakeSettings, BakeState,
    DrawOutcome, FrameEnd,
};
use crate::readback::{aligned, aligned_size, is_transfer_buffer};
use crate::render::{ImposterData, ImposterFlags, ImposterModel};
use crate::settings::{decimal_text, law_settings_file, law_settings_round_trip, SPACE};
use crate::subviews::{entities_distinct, grid_tiles, holds_entity, is_extracted, Subview};
use crate::visibility::{count_set, is_seen, seen_entities, EntityFacts};

verus! {

/// The pixel that an imposter shows at column `x` of row `y` of its atlas: looked up among the
/// distinct pixels where it is indexed, else read from the texture.
pub open spec fn shown_pixel(imposter: ImposterModel, indexed: bool, x: int, y: int) -> Seq<u8> {
    if indexed {
        let slots = imposter.pixels.width * imposter.pixels.height;
        let place = stored_index(
            imposter.indices.data,
            imposter.indices.width,
            is_narrow(slots),
            x,
            y,
        );
        imposter.pixels.data.subrange(8 * place, 8 * place + 8)
    } else {
        let at = pixel_start(imposter.pixels.width, x, y);
        imposter.pixels.data.subrange(at, at + 8)
    }
}

/// The bytes of the pictures of an asset.
pub open spec fn images_bytes(images: AssetImages) -> int {
    match images {
        AssetImages::Direct { texture } => texture.data@.len() as int,
        AssetImages::Indexed { pixels, indices } => (pixels.data@.len() + indices.data@.len())
            as int,
    }
}

/// The distinct pixels of an image, looked up by the places stored for it, give the image back.
pub proof fn law_indexing_is_lossless(images: AssetImages, image: &Image, x: int, y: int)
    requires
        image.wf(),
        are_images_of(images, image, true),
        images is Indexed,
        0 <= x < image.width,
        0 <= y < image.height,
    ensures
        ({
            let pixels = images->pixels;
            let indices = images->indices;
            let narrow = is_narrow((pixels.width as int / 2) * pixels.height);
            let place = stored_index(indices.data@, indices.width as int, narrow, x, y);
            pixels.data@.subrange(8 * place, 8 * place + 8) == image.pixel(x, y)
        }),
{
    let colors = sorted_palette(image.data@);
    let pixels = images->pixels;
    let indices = images->indices;
    let narrow = is_narrow(palette_slots(colors.len() as int));
    assert(is_index_picture(&indices, image, colors, narrow));
    let place = stored_index(indices.data@, indices.width as int, narrow, x, y);
    lemma_pixel_in_bounds(image.width as int, image.height as int, x, y);
    assert(colors[place] == pixel_key(image.data@, pixel_start(image.width as int, x, y)));
    lemma_key_bytes(image.data@, pixel_start(image.width as int, x, y));
    assert(pixels.data@.subrange(8 * place, 8 * place + 8) == key_bytes(colors[place]));
    assert(pixels.width as int / 2 == block_side(8 * colors.len() as int));
}

/// The picture of the distinct pixels is loaded with the columns and rows it was written with.
pub proof fn law_palette_keeps_its_shape(images: AssetImages, image: &Image)
    requires
        are_images_of(images, image, true),
        images is Indexed,
    ensures
        palette_texture_of(images->pixels.data@) matches Ok(texture) && texture.width
            == images->pixels.width as int / 2 && texture.height == images->pixels.height
            && texture.data == images->pixels.data@,
{
    let colors = sorted_palette(image.data@);
    let pixels = images->pixels;
    let bytes = 8 * colors.len() as int;
    let side = block_side(bytes);
    let rows = block_rows(bytes, side);
    lemma_block_side(bytes);
    let full = 8 * (side * rows);
    lemma_block_full(bytes, side);
    assert(pixels.data@.len() == full) by {
        assert(4 * ((2 * side) * rows) == 8 * (side * rows)) by (nonlinear_arith);
    }
    lemma_block_side_unique(block_side(full), side, full);
}

/// A loaded imposter shows `stored`, with the settings it was written with.
pub open spec fn shows(
    imposter: ImposterModel,
    plan: &AssetPlan,
    stored: &Image,
    mode: GridMode,
    options: ImposterLoaderSettings,
    scale: FloatBits,
) -> bool {
    let zero = FloatBits { bits: ZERO_BITS };
    &&& imposter.data == (ImposterData {
        center_and_scale: Vec4 { x: zero, y: zero, z: zero, w: scale },
        packed_tile_offset: plan.layout.packed_tile_offset,
        packed_tile_size: plan.layout.packed_tile_size,
        grid_size: plan.layout.grid_size,
        base_tile_size: plan.layout.base_tile_size,
        flags: (ImposterFlags {
            mode,
            multisample: options.multisample,
            indexed: plan.images is Indexed,
            dither: false,
            coverage: false,
            fade: false,
        }).encoded(),
        alpha: options.alpha,
        swap_fade: Vec2 { x: zero, y: zero },
    })
    &&& imposter.alpha_mode == alpha_mode_of(options.alpha_blend)
    &&& imposter.vram_bytes == images_bytes(plan.images)
    &&& forall|x: int, y: int|
        0 <= x < stored.width && 0 <= y < stored.height ==> #[trigger] shown_pixel(
            imposter,
            plan.images is Indexed,
            x,
            y,
        ) == stored.pixel(x, y)
}

/// An asset that was written is loaded again: every pixel that was stored is shown at its place,
/// and the settings come back. That holds of every image whose tiles are as large as the
/// settings say, which packing sees to, and of every text of a scale without spaces.
pub proof fn law_written_asset_loads(
    image: &Image,
    grid_size: u32,
    tile_size: u32,
    mode: GridMode,
    pack: bool,
    index: bool,
    scale: Seq<char>,
    stored: &Image,
    plan: &AssetPlan,
    contents: Map<Seq<char>, Option<Seq<u8>>>,
    options: ImposterLoaderSettings,
    value: FloatBits,
)
    requires
        image.wf(),
        is_stored(stored, image, grid_size, tile_size, pack, plan.layout),
        is_plan_of(plan, stored, scale, mode, index),
        holds_asset(contents, plan.images, plan.settings@),
        !pack ==> image.width == tile_size * grid_size && image.height == tile_size * grid_size,
        forall|i: int| 0 <= i < encode_utf8(scale).len() ==> #[trigger] encode_utf8(scale)[i]
            != SPACE,
    ensures
        loaded_imposter(Some(contents), options, Some(value)) matches Ok(imposter) && shows(
            imposter,
            plan,
            stored,
            mode,
            options,
            value,
        ),
{
    let layout = plan.layout;
    law_settings_round_trip(layout, scale, mode, value);
    assert(settings_entry(contents) == Some(plan.settings@));
    assert(atlas_size(layout) == (stored.width as int, stored.height as int));
    assert(stored.wf());
    assert(images_bytes(plan.images) <= usize::MAX) by {
        assert(stored.data.len() == stored.data@.len());
        if plan.images is Indexed {
            law_indexing_saves_bytes(plan.images, stored, index);
        }
    }
    match plan.images {
        AssetImages::Direct { texture } => {
            reveal_strlit("pixels.png");
            reveal_strlit("texture.png");
            reveal_strlit("settings.txt");
            assert("pixels.png"@.len() != "texture.png"@.len());
            assert("pixels.png"@.len() != "settings.txt"@.len());
            assert(!contents.dom().contains("pixels.png"@));
            lemma_picture(contents, "texture.png"@, texture.data@);
            let model = textures_of(contents, layout);
            assert(model is Ok);
            let imposter = loaded_imposter(Some(contents), options, Some(value))->Ok_0;
            assert forall|x: int, y: int|
                0 <= x < stored.width && 0 <= y < stored.height implies #[trigger] shown_pixel(
                imposter,
                false,
                x,
                y,
            ) == stored.pixel(x, y) by {}
        },
        AssetImages::Indexed { pixels, indices } => {
            assert(contents.dom().contains("pixels.png"@));
            lemma_picture(contents, "pixels.png"@, pixels.data@);
            lemma_picture(contents, "indices.png"@, indices.data@);
            law_palette_keeps_its_shape(plan.images, stored);
            let palette = palette_texture_of(pixels.data@)->Ok_0;
            let slots = palette.width * palette.height;
            assert(slots == palette_slots(sorted_palette(stored.data@).len() as int));
            assert(index_texture_of(layout, slots, indices.data@) is Ok);
            let imposter = loaded_imposter(Some(contents), options, Some(value))->Ok_0;
            assert forall|x: int, y: int|
                0 <= x < stored.width && 0 <= y < stored.height implies #[trigger] shown_pixel(
                imposter,
                true,
                x,
                y,
            ) == stored.pixel(x, y) by {
                law_indexing_is_lossless(plan.images, stored, x, y);
            }
        },
    }
}

/// A picture that an archive holds is decoded to its pixels.
proof fn lemma_picture(
    contents: Map<Seq<char>, Option<Seq<u8>>>,
    name: Seq<char>,
    pixels: Seq<u8>,
)
    requires
        contents.contains_key(name),
        contents[name] is Some,
        is_png_of(contents[name].unwrap(), pixels),
    ensures
        picture_of(contents, name) == Ok::<_, LoadFault>(pixels),
{
    assert(png_pixels(contents[name].unwrap()) == Some(pixels));
}

/// Where a place in a tiled row goes when `count` places from `start` on are kept of each tile.
pub open spec fn packed_place(tile: int, start: int, count: int, x: int) -> int {
    (x / tile) * count + (x % tile - start)
}

/// A place inside the window of its tile comes from where it went.
proof fn lemma_packed_place(tile: int, grid: int, start: int, count: int, x: int)
    requires
        0 < tile,
        0 <= x < grid * tile,
        0 <= start,
        start <= x % tile < start + count,
    ensures
        0 <= packed_place(tile, start, count, x) < count * grid,
        source_place(tile, start, count, packed_place(tile, start, count, x)) == x,
{
    let q = x / tile;
    let m = x % tile - start;
    lemma_fundamental_div_mod(x, tile);
    assert(0 <= q < grid) by (nonlinear_arith)
        requires
            x == tile * q + x % tile,
            0 <= x < grid * tile,
            0 <= x % tile < tile,
            0 < tile,
    ;
    assert(0 <= q * count && q * count + count <= count * grid) by (nonlinear_arith)
        requires
            0 <= q < grid,
            0 < count,
    ;
    lemma_fundamental_div_mod_converse(q * count + m, count, q, m);
    assert(q * tile == tile * q) by (nonlinear_arith);
}

/// Packing keeps everything that shows: each marked pixel of the tiles stands in the packed
/// image, in the same tile, at the place moved by the offset.
pub proof fn law_packing_keeps_marked_pixels(
    packed: &Image,
    image: &Image,
    grid: int,
    offset: UVec2,
    size: UVec2,
    x: int,
    y: int,
)
    requires
        packable(image, grid),
        is_packed(packed, image, grid, offset, size),
        0 <= x < grid * tile_side(image.width as int, grid),
        0 <= y < grid * tile_side(image.width as int, grid),
        image.marked(x, y),
    ensures
        ({
            let tile = tile_side(image.width as int, grid);
            let px = packed_place(tile, offset.x as int, size.x as int, x);
            let py = packed_place(tile, offset.y as int, size.y as int, y);
            &&& 0 <= px < packed.width
            &&& 0 <= py < packed.height
            &&& packed.pixel(px, py) == image.pixel(x, y)
        }),
{
    let tile = tile_side(image.width as int, grid);
    lemma_tiles_fit(image, grid);
    assert(0 < tile) by (nonlinear_arith)
        requires
            0 <= tile,
            0 <= x < grid * tile,
    ;
    lemma_fundamental_div_mod(x, tile);
    lemma_fundamental_div_mod(y, tile);
    let columns = |i: int| column_used(image, grid, i);
    let rows = |i: int| row_used(image, grid, i);
    assert(columns(x % tile));
    assert(rows(y % tile));
    lemma_packed_place(tile, grid, offset.x as int, size.x as int, x);
    lemma_packed_place(tile, grid, offset.y as int, size.y as int, y);
}

/// Packing never makes an image larger.
pub proof fn law_packing_never_grows(
    packed: &Image,
    image: &Image,
    grid: int,
    offset: UVec2,
    size: UVec2,
)
    requires
        packable(image, grid),
        grid <= image.width,
        is_packed(packed, image, grid, offset, size),
    ensures
        packed.width <= image.width,
        packed.height <= image.height,
        packed.data@.len() <= image.data@.len(),
{
    let tile = tile_side(image.width as int, grid);
    lemma_tiles_fit(image, grid);
    assert(0 < tile) by (nonlinear_arith)
        requires
            tile == image.width as int / grid,
            0 < grid <= image.width,
    ;
    assert(size.x * grid <= grid * tile && size.y * grid <= grid * tile) by (nonlinear_arith)
        requires
            size.x <= tile,
            size.y <= tile,
            0 < grid,
    ;
    assert(packed.width * packed.height <= image.width * image.height) by (nonlinear_arith)
        requires
            0 <= packed.width <= image.width,
            0 <= packed.height <= image.height,
    ;
}

/// Only one run of places is the shortest.
proof fn lemma_span_unique(
    used: spec_fn(int) -> bool,
    limit: int,
    start: int,
    count: int,
    other_start: int,
    other_count: int,
)
    requires
        is_span(used, limit, start, count),
        is_span(used, limit, other_start, other_count),
    ensures
        start == other_start,
        count == other_count,
{
}

/// Images of one size with the same pixels have the same bytes.
pub proof fn lemma_same_pixels(a: &Image, b: &Image)
    requires
        a.wf(),
        b.wf(),
        a.width == b.width,
        a.height == b.height,
        forall|x: int, y: int|
            0 <= x < a.width && 0 <= y < a.height ==> #[trigger] a.pixel(x, y) == b.pixel(x, y),
    ensures
        a.data@ == b.data@,
{
    let width = a.width as int;
    assert forall|k: int| 0 <= k < a.data@.len() implies a.data@[k] == b.data@[k] by {
        let p = k / 8;
        assert(0 < width) by (nonlinear_arith)
            requires
                0 <= k < 8 * (width * a.height),
                0 <= width,
        ;
        lemma_fundamental_div_mod(p, width);
        let y = p / width;
        let x = p % width;
        assert(0 <= y < a.height) by (nonlinear_arith)
            requires
                p == width * y + x,
                0 <= x < width,
                0 <= p < width * a.height,
        ;
        assert(y * width == width * y) by (nonlinear_arith);
        assert(pixel_start(width, x, y) == 8 * p);
        assert(a.pixel(x, y)[k - 8 * p] == a.data@[k]);
        assert(b.pixel(x, y)[k - 8 * p] == b.data@[k]);
    }
    assert(a.data@ =~= b.data@);
}

/// Packing has one result only.
pub proof fn law_packing_is_unique(
    a: &Image,
    a_offset: UVec2,
    a_size: UVec2,
    b: &Image,
    b_offset: UVec2,
    b_size: UVec2,
    image: &Image,
    grid: int,
)
    requires
        packable(image, grid),
        is_packed(a, image, grid, a_offset, a_size),
        is_packed(b, image, grid, b_offset, b_size),
    ensures
        a_offset == b_offset,
        a_size == b_size,
        a.width == b.width,
        a.height == b.height,
        a.data@ == b.data@,
{
    let tile = tile_side(image.width as int, grid);
    lemma_span_unique(
        |i: int| column_used(image, grid, i),
        tile,
        a_offset.x as int,
        a_size.x as int,
        b_offset.x as int,
        b_size.x as int,
    );
    lemma_span_unique(
        |i: int| row_used(image, grid, i),
        tile,
        a_offset.y as int,
        a_size.y as int,
        b_offset.y as int,
        b_size.y as int,
    );
    assert forall|x: int, y: int| 0 <= x < a.width && 0 <= y < a.height implies #[trigger] a.pixel(
        x,
        y,
    ) == b.pixel(x, y) by {
        let p = b.pixel(x, y);
    }
    lemma_same_pixels(a, b);
}

/// A frame of a bake after its actions had these outcomes.
pub open spec fn frame_after(
    frame: BakeFrame,
    settings: BakeSettings,
    outcomes: Seq<DrawOutcome>,
) -> BakeFrame
    decreases outcomes.len(),
{
    if outcomes.len() == 0 {
        frame
    } else {
        frame_after(frame, settings, outcomes.drop_last()).advanced(settings, outcomes.last())
    }
}

/// How many tiles are done after a frame, where `ready` says whether the first tile of a bake,
/// if it was drawn in this frame, showed everything that it must.
pub open spec fn frame_result(settings: BakeSettings, rendered: int, ready: bool) -> int {
    if rendered == 0 && !ready {
        0
    } else {
        tiles_after(rendered, settings.max_tiles as int, settings.tiles as int)
    }
}

/// A frame in which everything was done ends with the tiles that its settings give: none where
/// the first tile was not ready, else as many more as a frame may draw, and never more than
/// there are.
pub proof fn law_frame_result(settings: BakeSettings, rendered: usize, outcomes: Seq<DrawOutcome>)
    requires
        settings.single() ==> 0 < settings.tiles,
        frame_after(BakeFrame::started(rendered, settings), settings, outcomes).next() is Done,
    ensures
        frame_after(BakeFrame::started(rendered, settings), settings, outcomes).rendered
            == frame_result(
            settings,
            rendered as int,
            outcomes.len() == 0 || is_ready(settings, outcomes[0]),
        ),
        ({
            let done = frame_after(
                BakeFrame::started(rendered, settings),
                settings,
                outcomes,
            ).rendered;
            if rendered == 0 && 0 < outcomes.len() && settings.wait_for_render && !(outcomes[0].ok
                && outcomes[0].actual_count == settings.expected_count) {
                done == 0
            } else if rendered >= settings.tiles {
                done == rendered
            } else if settings.max_tiles >= settings.tiles - rendered {
                done == settings.tiles
            } else {
                done == rendered + settings.max_tiles
            }
        }),
{
    lemma_frame_steps(settings, rendered, outcomes);
}

/// What a frame looks like on its way.
proof fn lemma_frame_steps(settings: BakeSettings, rendered: usize, outcomes: Seq<DrawOutcome>)
    requires
        settings.single() ==> 0 < settings.tiles,
    ensures
        ({
            let start = BakeFrame::started(rendered, settings);
            let frame = frame_after(start, settings, outcomes);
            &&& frame.wf(settings)
            &&& rendered <= frame.rendered <= rendered + outcomes.len()
            &&& if outcomes.len() > 0 && !(start.next() is Done) && rendered == 0 && !is_ready(
                settings,
                outcomes[0],
            ) {
                frame.next() is Done && frame.rendered == 0
            } else {
                &&& frame.limit == start.limit
                &&& frame.probing == (start.probing && outcomes.len() == 0)
                &&& outcomes.len() > 0 && !(start.next() is Done) ==> rendered < frame.rendered
            }
        }),
    decreases outcomes.len(),
{
    let start = BakeFrame::started(rendered, settings);
    if outcomes.len() > 0 {
        lemma_frame_steps(settings, rendered, outcomes.drop_last());
        let before = frame_after(start, settings, outcomes.drop_last());
        if outcomes.len() > 1 {
            assert(outcomes.drop_last()[0] == outcomes[0]);
        }
    }
}

/// Tiles are drawn in order, each once: whatever is drawn next is the first tile that is not
/// done, and it is done then, or the frame ends. No more tiles are drawn than a frame may draw.
pub proof fn law_tiles_in_order(
    settings: BakeSettings,
    rendered: usize,
    outcomes: Seq<DrawOutcome>,
    outcome: DrawOutcome,
)
    requires
        settings.single() ==> 0 < settings.tiles,
    ensures
        ({
            let frame = frame_after(BakeFrame::started(rendered, settings), settings, outcomes);
            let after = frame.advanced(settings, outcome);
            &&& frame.next() matches BakeAction::Draw(tile) ==> tile == frame.rendered && tile
                < settings.tiles
            &&& frame.next() is Probe ==> frame.rendered == 0 && 0 < settings.tiles
            &&& !(frame.next() is Done) ==> frame.rendered < rendered + settings.max_tiles
            &&& !(frame.next() is Done) ==> after.rendered == frame.rendered + 1 || (
            after.rendered == frame.rendered && after.next() is Done)
        }),
{
    lemma_frame_steps(settings, rendered, outcomes);
}

/// How many tiles are done after a number of frames, once everything is ready.
pub open spec fn tiles_after_frames(settings: BakeSettings, frames: nat) -> int
    decreases frames,
{
    if frames == 0 {
        0
    } else {
        frame_result(settings, tiles_after_frames(settings, (frames - 1) as nat), true)
    }
}

/// A bake that is ready comes to its end: every frame draws as many tiles as it may, until all
/// are done.
pub proof fn law_bake_completes(settings: BakeSettings, frames: nat)
    requires
        0 < settings.tiles,
        0 < settings.max_tiles,
    ensures
        tiles_after_frames(settings, frames) <= settings.tiles,
        frames * settings.max_tiles < settings.tiles ==> tiles_after_frames(settings, frames)
            == frames * settings.max_tiles,
        settings.tiles <= frames * settings.max_tiles ==> tiles_after_frames(settings, frames)
            == settings.tiles,
    decreases frames,
{
    if frames > 0 {
        let before = (frames - 1) as nat;
        law_bake_completes(settings, before);
        assert(frames * settings.max_tiles == before * settings.max_tiles + settings.max_tiles)
            by (nonlinear_arith)
            requires
                frames == before + 1,
        ;
    }
}

/// A bake reports once, when its last tile is done: `RunningCallback` where there is a callback,
/// else `Finished`.
pub proof fn law_report_when_complete(rendered: int, grid_size: int, has_callback: bool)
    ensures
        (frame_end(rendered, grid_size, has_callback) is Complete) == (rendered == grid_size
            * grid_size),
        frame_end(rendered, grid_size, has_callback) matches FrameEnd::Complete(state) ==> state
            == (if has_callback {
            BakeState::RunningCallback
        } else {
            BakeState::Finished
        }),
{
}

/// Padded rows are aligned, and longer than what they hold.
pub proof fn law_rows_are_aligned(value: int)
    requires
        0 <= value,
    ensures
        aligned(value) % 256 == 0,
        value < aligned(value) <= value + 256,
{
}

/// The buffer that an atlas is copied to can be read back.
pub proof fn law_transfer_buffer_fits(size: int)
    requires
        0 <= size,
        aligned(8 * size) <= u32::MAX,
        aligned_size(size, size, 8) <= u32::MAX,
    ensures
        is_transfer_buffer(aligned_size(size, size, 8), size),
{
    assert(size * size <= size * aligned(8 * size)) by (nonlinear_arith)
        requires
            0 <= size <= aligned(8 * size),
    ;
}

/// A camera that is drawn in a frame: whether it changed since the frame before, and the views
/// that it gets where none are kept.
pub struct CameraStep {
    pub camera: u64,
    pub changed: bool,
    pub fresh: Seq<Subview>,
}

/// Views by the number of their camera: those of the frame before that were not taken over, and
/// those of this frame.
pub struct FrameViews {
    pub earlier: Map<u64, Seq<Subview>>,
    pub current: Map<u64, Seq<Subview>>,
}

/// The views after a camera was drawn: kept where it did not change and had some, else fresh.
pub open spec fn camera_drawn(views: FrameViews, step: CameraStep) -> FrameViews {
    if !step.changed && views.earlier.contains_key(step.camera) {
        FrameViews {
            earlier: views.earlier.remove(step.camera),
            current: views.current.insert(step.camera, views.earlier[step.camera]),
        }
    } else {
        FrameViews {
            earlier: views.earlier,
            current: views.current.insert(step.camera, step.fresh),
        }
    }
}

/// The views after a frame began with the views `before` and drew these cameras.
pub open spec fn cameras_drawn(before: Map<u64, Seq<Subview>>, steps: Seq<CameraStep>) -> FrameViews
    decreases steps.len(),
{
    if steps.len() == 0 {
        FrameViews { earlier: before, current: Map::empty() }
    } else {
        camera_drawn(cameras_drawn(before, steps.drop_last()), steps.last())
    }
}

/// No camera is drawn twice.
pub open spec fn cameras_distinct(steps: Seq<CameraStep>) -> bool {
    forall|i: int, j: int|
        0 <= i < j < steps.len() ==> (#[trigger] steps[i]).camera != (#[trigger] steps[j]).camera
}

/// No two fresh views have one entity, and none has that of a view of the frame before.
pub open spec fn fresh_views_are_new(
    before: Map<u64, Seq<Subview>>,
    steps: Seq<CameraStep>,
) -> bool {
    &&& forall|k: int, i: int|
        0 <= k < steps.len() && 0 <= i < steps[k].fresh.len() ==> !holds_entity(
            before,
            (#[trigger] steps[k].fresh[i]).entity,
        )
    &&& forall|k: int, i: int, l: int, j: int|
        0 <= k < steps.len() && 0 <= i < steps[k].fresh.len() && 0 <= l < steps.len() && 0 <= j
            < steps[l].fresh.len() && (#[trigger] steps[k].fresh[i]).entity == (
        #[trigger] steps[l].fresh[j]).entity ==> k == l && i == j
}

/// What becomes of the views of one camera from one frame to the next. Where it is drawn and did
/// not change they are kept as they are, and not released. Where it is drawn and changed, or had
/// none, it has the fresh ones, and those it had are released. Where it is not drawn, it has none
/// any longer, and those it had are released.
pub proof fn law_views_of_a_camera(
    before: Map<u64, Seq<Subview>>,
    steps: Seq<CameraStep>,
    camera: u64,
)
    requires
        cameras_distinct(steps),
    ensures
        ({
            let after = cameras_drawn(before, steps);
            &&& forall|k: int|
                0 <= k < steps.len() && (#[trigger] steps[k]).camera == camera ==> {
                    &&& after.current.contains_key(camera)
                    &&& if !steps[k].changed && before.contains_key(camera) {
                        &&& after.current[camera] == before[camera]
                        &&& !after.earlier.contains_key(camera)
                    } else {
                        &&& after.current[camera] == steps[k].fresh
                        &&& after.earlier.contains_key(camera) == before.contains_key(camera)
                    }
                }
            &&& (forall|k: int| 0 <= k < steps.len() ==> (#[trigger] steps[k]).camera != camera)
                ==> {
                &&& !after.current.contains_key(camera)
                &&& after.earlier.contains_key(camera) == before.contains_key(camera)
            }
            &&& after.earlier.contains_key(camera) ==> before.contains_key(camera)
                && after.earlier[camera] == before[camera]
        }),
    decreases steps.len(),
{
    if steps.len() > 0 {
        let front = steps.drop_last();
        let last = steps.last();
        assert forall|i: int, j: int| 0 <= i < j < front.len() implies (#[trigger] front[i]).camera
            != (#[trigger] front[j]).camera by {
            assert(steps[i].camera != steps[j].camera);
        }
        law_views_of_a_camera(before, front, camera);
        if last.camera == camera {
            assert forall|k: int| 0 <= k < front.len() implies (#[trigger] front[k]).camera
                != camera by {
                assert(steps[k].camera != steps[steps.len() - 1].camera);
            }
            assert forall|k: int|
                0 <= k < steps.len() && (#[trigger] steps[k]).camera == camera implies steps[k]
                == last by {
                if k < front.len() {
                    assert(front[k].camera != camera);
                }
            }
            assert(steps[steps.len() - 1].camera == camera);
        } else {
            assert forall|k: int|
                0 <= k < steps.len() && (#[trigger] steps[k]).camera == camera implies k
                < front.len() && front[k] == steps[k] by {}
            if forall|k: int| 0 <= k < steps.len() ==> (#[trigger] steps[k]).camera != camera {
                assert forall|k: int| 0 <= k < front.len() implies (#[trigger] front[k]).camera
                    != camera by {
                    assert(steps[k].camera != camera);
                }
            }
        }
    }
}

/// The views of a camera after a frame are those it had before, or those that some step gave it.
proof fn lemma_current_views(
    before: Map<u64, Seq<Subview>>,
    steps: Seq<CameraStep>,
    camera: u64,
) -> (k: int)
    requires
        cameras_distinct(steps),
        cameras_drawn(before, steps).current.contains_key(camera),
    ensures
        ({
            let after = cameras_drawn(before, steps);
            &&& 0 <= k < steps.len()
            &&& steps[k].camera == camera
            &&& (before.contains_key(camera) && after.current[camera] == before[camera]
                && !after.earlier.contains_key(camera)) || after.current[camera] == steps[k].fresh
        }),
{
    law_views_of_a_camera(before, steps, camera);
    choose|k: int| 0 <= k < steps.len() && (#[trigger] steps[k]).camera == camera
}

/// No view is lost and no view in use is released: each entity of the frame before either stands
/// for a view of this frame or is left to be released, and never both.
pub proof fn law_views_are_kept_or_released(
    before: Map<u64, Seq<Subview>>,
    steps: Seq<CameraStep>,
    entity: u64,
)
    requires
        cameras_distinct(steps),
        entities_distinct(before),
        fresh_views_are_new(before, steps),
    ensures
        holds_entity(before, entity) ==> (holds_entity(
            cameras_drawn(before, steps).current,
            entity,
        ) <==> !holds_entity(cameras_drawn(before, steps).earlier, entity)),
        holds_entity(cameras_drawn(before, steps).earlier, entity) ==> holds_entity(before, entity),
{
    let after = cameras_drawn(before, steps);
    if holds_entity(before, entity) {
        let (c, i) = choose|c: u64, i: int|
            before.contains_key(c) && 0 <= i < before[c].len() && (#[trigger] before[c][i]).entity
                == entity;
        law_views_of_a_camera(before, steps, c);
        if after.earlier.contains_key(c) {
            assert(after.earlier[c][i].entity == entity);
        } else {
            assert(after.current[c][i].entity == entity);
        }
        if holds_entity(after.current, entity) {
            let (d, j) = choose|d: u64, j: int|
                after.current.contains_key(d) && 0 <= j < after.current[d].len() && (
                #[trigger] after.current[d][j]).entity == entity;
            let k = lemma_current_views(before, steps, d);
            if after.current[d] == steps[k].fresh {
                assert(!holds_entity(before, steps[k].fresh[j].entity));
            }
            assert(before[d][j].entity == before[c][i].entity);
            assert(!after.earlier.contains_key(c));
        }
    }
    if holds_entity(after.earlier, entity) {
        let (d, j) = choose|d: u64, j: int|
            after.earlier.contains_key(d) && 0 <= j < after.earlier[d].len() && (
            #[trigger] after.earlier[d][j]).entity == entity;
        law_views_of_a_camera(before, steps, d);
        assert(before[d][j].entity == entity);
        if holds_entity(before, entity) {
            let (c, i) = choose|c: u64, i: int|
                before.contains_key(c) && 0 <= i < before[c].len() && (
                #[trigger] before[c][i]).entity == entity;
            assert(before[c][i].entity == before[d][j].entity);
        }
    }
}

/// No two views ever have one entity: that stays so from frame to frame, of the views in use and
/// of those that are left to be released, so that each is released once.
pub proof fn law_views_stay_distinct(before: Map<u64, Seq<Subview>>, steps: Seq<CameraStep>)
    requires
        cameras_distinct(steps),
        entities_distinct(before),
        fresh_views_are_new(before, steps),
    ensures
        entities_distinct(cameras_drawn(before, steps).current),
        entities_distinct(cameras_drawn(before, steps).earlier),
{
    let current = cameras_drawn(before, steps).current;
    let earlier = cameras_drawn(before, steps).earlier;
    assert forall|a: u64, i: int, b: u64, j: int|
        earlier.contains_key(a) && 0 <= i < earlier[a].len() && earlier.contains_key(b) && 0 <= j
            < earlier[b].len() && (#[trigger] earlier[a][i]).entity == (
        #[trigger] earlier[b][j]).entity implies a == b && i == j by {
        law_views_of_a_camera(before, steps, a);
        law_views_of_a_camera(before, steps, b);
        assert(before[a][i].entity == before[b][j].entity);
    }
    assert forall|a: u64, i: int, b: u64, j: int|
        current.contains_key(a) && 0 <= i < current[a].len() && current.contains_key(b) && 0 <= j
            < current[b].len() && (#[trigger] current[a][i]).entity == (
        #[trigger] current[b][j]).entity implies a == b && i == j by {
        let k = lemma_current_views(before, steps, a);
        let l = lemma_current_views(before, steps, b);
        if current[a] == steps[k].fresh {
            assert(!holds_entity(before, steps[k].fresh[i].entity));
            if current[b] == steps[l].fresh {
                assert(steps[k].fresh[i].entity == steps[l].fresh[j].entity);
            } else {
                assert(before[b][j].entity == current[a][i].entity);
                assert(holds_entity(before, before[b][j].entity));
            }
        } else if current[b] == steps[l].fresh {
            assert(!holds_entity(before, steps[l].fresh[j].entity));
            assert(before[a][i].entity == current[b][j].entity);
            assert(holds_entity(before, before[a][i].entity));
        } else {
            assert(before[a][i].entity == before[b][j].entity);
        }
    }
}

/// A loaded imposter whose asset was packed shows everything that the image showed: each marked
/// pixel of its tiles, at the place moved by the offset.
pub proof fn law_packed_asset_shows_marked_pixels(
    imposter: ImposterModel,
    plan: &AssetPlan,
    stored: &Image,
    image: &Image,
    mode: GridMode,
    options: ImposterLoaderSettings,
    scale: FloatBits,
    x: int,
    y: int,
)
    requires
        packable(image, plan.layout.grid_size as int),
        is_stored(
            stored,
            image,
            plan.layout.grid_size,
            plan.layout.base_tile_size,
            true,
            plan.layout,
        ),
        shows(imposter, plan, stored, mode, options, scale),
        0 <= x < plan.layout.grid_size * tile_side(
            image.width as int,
            plan.layout.grid_size as int,
        ),
        0 <= y < plan.layout.grid_size * tile_side(
            image.width as int,
            plan.layout.grid_size as int,
        ),
        image.marked(x, y),
    ensures
        ({
            let layout = plan.layout;
            let tile = tile_side(image.width as int, layout.grid_size as int);
            shown_pixel(
                imposter,
                plan.images is Indexed,
                packed_place(
                    tile,
                    layout.packed_tile_offset.x as int,
                    layout.packed_tile_size.x as int,
                    x,
                ),
                packed_place(
                    tile,
                    layout.packed_tile_offset.y as int,
                    layout.packed_tile_size.y as int,
                    y,
                ),
            ) == image.pixel(x, y)
        }),
{
    law_packing_keeps_marked_pixels(
        stored,
        image,
        plan.layout.grid_size as int,
        plan.layout.packed_tile_offset,
        plan.layout.packed_tile_size,
        x,
        y,
    );
}

/// An asset is indexed only where that saves bytes.
pub proof fn law_indexing_saves_bytes(images: AssetImages, image: &Image, index: bool)
    requires
        image.wf(),
        are_images_of(images, image, index),
        images is Indexed,
    ensures
        images_bytes(images) < image.data@.len(),
{
    let colors = sorted_palette(image.data@);
    let bytes = 8 * colors.len() as int;
    let side = block_side(bytes);
    let rows = block_rows(bytes, side);
    law_palette_counts_distinct_pixels(image.data@);
    assert(images->pixels.data@.len() == 8 * (side * rows)) by {
        assert(4 * ((2 * side) * rows) == 8 * (side * rows)) by (nonlinear_arith);
    }
}

/// A sorted palette holds each different pixel of a buffer once.
pub proof fn law_palette_counts_distinct_pixels(data: Seq<u8>)
    ensures
        is_palette(sorted_palette(data), pixel_keys(data)),
        sorted_palette(data).len() == distinct_pixels(data),
{
    lemma_palette_exists(pixel_keys(data));
    lemma_palette_len(sorted_palette(data), pixel_keys(data));
}

/// Every sequence of numbers has a palette.
proof fn lemma_palette_exists(keys: Seq<u64>)
    ensures
        exists|palette: Seq<u64>| is_palette(palette, keys),
    decreases keys.len(),
{
    if keys.len() == 0 {
        assert(is_palette(Seq::<u64>::empty(), keys));
    } else {
        let front = keys.drop_last();
        let last = keys.last();
        lemma_palette_exists(front);
        let palette = choose|palette: Seq<u64>| is_palette(palette, front);
        assert forall|k: u64| #[trigger] keys.contains(k) <==> front.contains(k) || k == last by {
            if front.contains(k) {
                let i = choose|i: int| 0 <= i < front.len() && front[i] == k;
                assert(keys[i] == k);
            }
            if k == last {
                assert(keys[keys.len() - 1] == k);
            }
            if keys.contains(k) && k != last {
                let i = choose|i: int| 0 <= i < keys.len() && keys[i] == k;
                assert(front[i] == k);
            }
        }
        if palette.contains(last) {
            assert forall|i: int| 0 <= i < palette.len() implies keys.contains(
                #[trigger] palette[i],
            ) by {
                assert(front.contains(palette[i]));
            }
            assert forall|i: int| 0 <= i < keys.len() implies palette.contains(
                #[trigger] keys[i],
            ) by {
                if i < front.len() {
                    assert(front[i] == keys[i]);
                }
            }
            assert(is_palette(palette, keys));
        } else {
            let at = lemma_insertion_place(palette, last);
            let longer = palette.insert(at, last);
            assert forall|i: int| 0 <= i < longer.len() implies keys.contains(
                #[trigger] longer[i],
            ) by {
                if i != at {
                    let j = if i < at {
                        i
                    } else {
                        i - 1
                    };
                    assert(longer[i] == palette[j]);
                    assert(front.contains(palette[j]));
                }
            }
            assert forall|i: int| 0 <= i < keys.len() implies longer.contains(
                #[trigger] keys[i],
            ) by {
                if i < front.len() {
                    assert(front[i] == keys[i]);
                    assert(palette.contains(front[i]));
                    let j = choose|j: int| 0 <= j < palette.len() && palette[j] == front[i];
                    let k = if j < at {
                        j
                    } else {
                        j + 1
                    };
                    assert(longer[k] == keys[i]);
                } else {
                    assert(longer[at] == keys[i]);
                }
            }
            assert(is_palette(longer, keys));
        }
    }
}

/// Where a number goes in a sorted sequence that does not hold it.
proof fn lemma_insertion_place(sorted: Seq<u64>, key: u64) -> (at: int)
    requires
        forall|i: int, j: int| 0 <= i < j < sorted.len() ==> sorted[i] < sorted[j],
        !sorted.contains(key),
    ensures
        0 <= at <= sorted.len(),
        forall|i: int| 0 <= i < at ==> #[trigger] sorted[i] < key,
        forall|i: int| at <= i < sorted.len() ==> key < #[trigger] sorted[i],
    decreases sorted.len(),
{
    if sorted.len() == 0 {
        0
    } else if sorted.last() < key {
        sorted.len() as int
    } else {
        let front = sorted.drop_last();
        assert(sorted[sorted.len() - 1] != key);
        assert forall|i: int| 0 <= i < front.len() implies front[i] != key by {
            assert(sorted[i] != key);
        }
        let at = lemma_insertion_place(front, key);
        assert forall|i: int| 0 <= i < at implies #[trigger] sorted[i] < key by {
            assert(front[i] == sorted[i]);
        }
        assert forall|i: int| at <= i < sorted.len() implies key < #[trigger] sorted[i] by {
            if i < front.len() {
                assert(front[i] == sorted[i]);
            }
        }
        at
    }
}

/// A camera sees exactly the entities that are shown, share a layer and are not culled.
pub proof fn law_seen_entities(facts: Seq<EntityFacts>, no_cpu_culling: bool, entity: u64)
    ensures
        seen_entities(facts, no_cpu_culling).contains(entity) <==> exists|i: int|
            0 <= i < facts.len() && (#[trigger] facts[i]).entity == entity && is_seen(
                facts[i],
                no_cpu_culling,
            ),
    decreases facts.len(),
{
    if facts.len() > 0 {
        let front = facts.drop_last();
        let seen = seen_entities(front, no_cpu_culling);
        law_seen_entities(front, no_cpu_culling, entity);
        if seen.contains(entity) {
            let i = choose|i: int|
                0 <= i < front.len() && (#[trigger] front[i]).entity == entity && is_seen(
                    front[i],
                    no_cpu_culling,
                );
            assert(facts[i].entity == entity);
            let k = choose|k: int| 0 <= k < seen.len() && seen[k] == entity;
            assert(seen.push(facts.last().entity)[k] == entity);
        }
        if is_seen(facts.last(), no_cpu_culling) && facts.last().entity == entity {
            assert(facts[facts.len() - 1].entity == entity);
            assert(seen.push(entity)[seen.len() as int] == entity);
        }
        if seen_entities(facts, no_cpu_culling).contains(entity) && !seen.contains(entity) {
            let all = seen_entities(facts, no_cpu_culling);
            let k = choose|k: int| 0 <= k < all.len() && all[k] == entity;
            if k < seen.len() {
                assert(seen[k] == entity);
            }
            assert(facts[facts.len() - 1].entity == entity);
        }
        if exists|i: int|
            0 <= i < facts.len() && (#[trigger] facts[i]).entity == entity && is_seen(
                facts[i],
                no_cpu_culling,
            ) {
            let i = choose|i: int|
                0 <= i < facts.len() && (#[trigger] facts[i]).entity == entity && is_seen(
                    facts[i],
                    no_cpu_culling,
                );
            if i < front.len() {
                assert(front[i] == facts[i]);
            }
        }
    }
}

/// A bake that does not go on for ever ends with its reports: it is finished, its channel is
/// closed, and it is drawn no more.
pub proof fn law_reports_end_a_bake(state: BakeState, has_callback: bool, waiting: bool)
    ensures
        ({
            let reports = if has_callback {
                seq![BakeState::RunningCallback, BakeState::Finished]
            } else {
                seq![BakeState::Finished]
            };
            let (after, closed) = reported(state, false, reports);
            after == BakeState::Finished && closed && !is_extracted(after, waiting)
        }),
{
    let with_callback = seq![BakeState::RunningCallback, BakeState::Finished];
    assert(with_callback[1] == BakeState::Finished);
    assert(seq![BakeState::Finished][0] == BakeState::Finished);
}

/// A bake that goes on for ever is never ended by a report.
pub proof fn law_continuous_bake_goes_on(state: BakeState, reports: Seq<BakeState>)
    ensures
        reported(state, true, reports) == (state, false),
{
}

/// Every tile of a grid has its number, and no two have the same.
pub proof fn law_tiles_are_numbered(grid_size: int, x: int, y: int)
    requires
        0 <= x < grid_size <= u32::MAX,
        0 <= y < grid_size,
    ensures
        0 <= y * grid_size + x < grid_tiles(grid_size).len(),
        forall|i: int|
            0 <= i < grid_tiles(grid_size).len() ==> (#[trigger] grid_tiles(grid_size)[i] == (
            UVec2 { x: x as u32, y: y as u32 }) <==> i == y * grid_size + x),
{
    assert(0 <= y * grid_size && y * grid_size + grid_size <= grid_size * grid_size)
        by (nonlinear_arith)
        requires
            0 <= y < grid_size,
    ;
    lemma_fundamental_div_mod_converse(y * grid_size + x, grid_size, y, x);
    assert forall|i: int| 0 <= i < grid_tiles(grid_size).len() implies (
    #[trigger] grid_tiles(grid_size)[i] == (UVec2 { x: x as u32, y: y as u32 }) <==> i == y
        * grid_size + x) by {
        lemma_fundamental_div_mod(i, grid_size);
        let q = i / grid_size;
        let m = i % grid_size;
        assert(0 <= q < grid_size) by (nonlinear_arith)
            requires
                i == grid_size * q + m,
                0 <= m < grid_size,
                0 <= i < grid_size * grid_size,
        ;
        assert(grid_size * q == q * grid_size) by (nonlinear_arith);
    }
}

/// What is counted when batches of instances are drawn one after the other.
pub open spec fn counted(batches: Seq<(u32, u32)>) -> int
    decreases batches.len(),
{
    if batches.len() == 0 {
        0
    } else {
        counted(batches.drop_last()) + (batches.last().1 - batches.last().0)
    }
}

/// However instances are batched, all of them are counted.
pub proof fn law_batches_count_every_instance(batches: Seq<(u32, u32)>, instances: u32)
    requires
        0 < batches.len(),
        batches[0].0 == 0,
        batches.last().1 == instances,
        forall|i: int, j: int|
            0 <= i && j == i + 1 && j < batches.len() ==> (#[trigger] batches[i]).1 == (
            #[trigger] batches[j]).0,
    ensures
        counted(batches) == instances,
    decreases batches.len(),
{
    let front = batches.drop_last();
    if front.len() > 0 {
        assert(batches[batches.len() - 2].1 == batches[batches.len() - 1].0);
        assert(front.last() == batches[batches.len() - 2]);
        law_batches_count_every_instance(front, batches.last().0);
    } else {
        assert(counted(front) == 0);
    }
}

/// A count of flags is the number of places at which one is set.
pub proof fn law_count_is_exact(flags: Seq<bool>)
    ensures
        Set::new(|i: int| 0 <= i < flags.len() && flags[i]).finite(),
        count_set(flags) == Set::new(|i: int| 0 <= i < flags.len() && flags[i]).len(),
    decreases flags.len(),
{
    let places = Set::new(|i: int| 0 <= i < flags.len() && flags[i]);
    if flags.len() == 0 {
        assert(places =~= Set::<int>::empty());
    } else {
        let front = flags.drop_last();
        let before = Set::new(|i: int| 0 <= i < front.len() && front[i]);
        law_count_is_exact(front);
        if flags.last() {
            assert(places =~= before.insert(flags.len() - 1));
        } else {
            assert(places =~= before);
        }
    }
}

/// The items that the first tile must show after the entities of these materials were counted,
/// one material after the other.
pub open spec fn expected_after(count: int, materials: Seq<Seq<bool>>) -> int
    decreases materials.len(),
{
    if materials.len() == 0 {
        count
    } else {
        expected_after(count, materials.drop_last()) + count_set(materials.last())
    }
}

/// One more material adds what it draws.
proof fn lemma_expected_push(count: int, materials: Seq<Seq<bool>>, drawn: Seq<bool>)
    ensures
        expected_after(count, materials.push(drawn)) == expected_after(count, materials)
            + count_set(drawn),
{
    assert(materials.push(drawn).drop_last() =~= materials);
}

/// Counting the entities of materials, one after the other, adds up what each of them draws, so
/// that two materials may change places anywhere in the order.
pub proof fn law_materials_add_up(
    count: int,
    first: Seq<Seq<bool>>,
    a: Seq<bool>,
    b: Seq<bool>,
    last: Seq<Seq<bool>>,
)
    ensures
        expected_after(count, seq![a, b]) == count + count_set(a) + count_set(b),
        expected_after(count, first.push(a).push(b) + last) == expected_after(
            count,
            first.push(b).push(a) + last,
        ),
    decreases last.len(),
{
    let none = Seq::<Seq<bool>>::empty();
    assert(seq![a, b] =~= none.push(a).push(b));
    lemma_expected_push(count, none, a);
    lemma_expected_push(count, none.push(a), b);
    let ab = first.push(a).push(b);
    let ba = first.push(b).push(a);
    if last.len() == 0 {
        assert(ab + last =~= ab && ba + last =~= ba);
        lemma_expected_push(count, first, a);
        lemma_expected_push(count, first, b);
        lemma_expected_push(count, first.push(a), b);
        lemma_expected_push(count, first.push(b), a);
    } else {
        let front = last.drop_last();
        law_materials_add_up(count, first, a, b, front);
        assert(ab + last =~= (ab + front).push(last.last()));
        assert(ba + last =~= (ba + front).push(last.last()));
        lemma_expected_push(count, ab + front, last.last());
        lemma_expected_push(count, ba + front, last.last());
    }
}

/// Every picture of an image that has pixels and can be stored has pixels itself and can be
/// encoded.
pub proof fn law_pictures_have_pixels(images: AssetImages, image: &Image, index: bool)
    requires
        image.wf(),
        0 < image.width,
        0 < image.height,
        storable(image, index),
        are_images_of(images, image, index),
    ensures
        images.encodable(),
{
    match images {
        AssetImages::Direct { texture } => {
            assert(4 * ((2 * image.width) * image.height) == 8 * (image.width * image.height))
                by (nonlinear_arith);
        },
        AssetImages::Indexed { pixels, indices } => {
            let keys = pixel_keys(image.data@);
            let colors = sorted_palette(image.data@);
            let bytes = 8 * colors.len() as int;
            let side = block_side(bytes);
            law_palette_counts_distinct_pixels(image.data@);
            lemma_palette_len(colors, keys);
            assert(0 < image.width * image.height) by (nonlinear_arith)
                requires
                    0 < image.width,
                    0 < image.height,
            ;
            assert(colors.contains(keys[0]));
            lemma_block_side(bytes);
            lemma_block_rows(bytes, side);
            assert(side <= 0x8000) by (nonlinear_arith)
                requires
                    0 < side,
                    8 * ((side - 1) * (side - 1)) < bytes,
                    bytes <= 0x1_0000_0000,
            ;
        },
    }
}

/// An image whose pixels, at eleven bytes each, can be counted in 32 bits makes a small asset,
/// which is always written.
pub proof fn law_small_images_make_small_assets(
    images: AssetImages,
    settings: Seq<u8>,
    stored: &Image,
    index: bool,
)
    requires
        stored.wf(),
        0 < stored.width,
        0 < stored.height,
        storable(stored, index),
        are_images_of(images, stored, index),
        images.encodable(),
        11 * (stored.width * stored.height) + 100 <= u32::MAX,
        settings.len() <= u32::MAX,
    ensures
        asset_is_small(images, settings),
{
    match images {
        AssetImages::Direct { texture } => {
            lemma_filtered_bytes(&texture);
            assert(stored.height <= stored.width * stored.height) by (nonlinear_arith)
                requires
                    0 < stored.width,
            ;
        },
        AssetImages::Indexed { pixels, indices } => {
            law_indexing_saves_bytes(images, stored, index);
            lemma_filtered_bytes(&pixels);
            lemma_filtered_bytes(&indices);
        },
    }
}

/// Two pictures have the same size and the same pixels.
pub open spec fn same_picture(a: Picture, b: Picture) -> bool {
    a.width == b.width && a.height == b.height && a.data@ == b.data@
}

/// Two assets have the same pictures.
pub open spec fn same_images(a: AssetImages, b: AssetImages) -> bool {
    match (a, b) {
        (
            AssetImages::Direct { texture: a_texture },
            AssetImages::Direct { texture: b_texture },
        ) => same_picture(a_texture, b_texture),
        (
            AssetImages::Indexed { pixels: a_pixels, indices: a_indices },
            AssetImages::Indexed { pixels: b_pixels, indices: b_indices },
        ) => same_picture(a_pixels, b_pixels) && same_picture(a_indices, b_indices),
        _ => false,
    }
}

/// Only one picture holds these pixels in a block.
proof fn lemma_palette_picture_unique(a: &Picture, b: &Picture, colors: Seq<u64>)
    requires
        is_palette_picture(a, colors),
        is_palette_picture(b, colors),
    ensures
        same_picture(*a, *b),
{
    assert forall|k: int| 0 <= k < a.data@.len() implies a.data@[k] == b.data@[k] by {
        if k < 8 * colors.len() {
            let i = k / 8;
            assert(a.data@.subrange(8 * i, 8 * i + 8) == key_bytes(colors[i]));
            assert(a.data@.subrange(8 * i, 8 * i + 8)[k - 8 * i] == a.data@[k]);
            assert(b.data@.subrange(8 * i, 8 * i + 8)[k - 8 * i] == b.data@[k]);
        }
    }
    assert(a.data@ =~= b.data@);
}

/// Only one picture holds the places of the pixels of an image.
proof fn lemma_index_picture_unique(
    a: &Picture,
    a_image: &Image,
    b: &Picture,
    b_image: &Image,
    colors: Seq<u64>,
    narrow: bool,
)
    requires
        a_image.width == b_image.width,
        a_image.height == b_image.height,
        a_image.data@ == b_image.data@,
        forall|i: int, j: int| 0 <= i < j < colors.len() ==> colors[i] < colors[j],
        is_index_picture(a, a_image, colors, narrow),
        is_index_picture(b, b_image, colors, narrow),
    ensures
        same_picture(*a, *b),
{
    let width = a_image.width as int;
    let columns = index_columns(width, narrow);
    assert forall|k: int| 0 <= k < a.data@.len() implies a.data@[k] == b.data@[k] by {
        let word = k / 4;
        assert(0 < columns) by (nonlinear_arith)
            requires
                0 <= k < 4 * (columns * a.height),
                0 <= columns,
        ;
        lemma_fundamental_div_mod(word, columns);
        let y = word / columns;
        let column = word % columns;
        assert(0 <= y < a.height) by (nonlinear_arith)
            requires
                word == columns * y + column,
                0 <= column < columns,
                0 <= word < columns * a.height,
        ;
        assert(y * columns == columns * y) by (nonlinear_arith);
        let x = if narrow {
            (k - 4 * (y * columns)) / 2
        } else {
            column
        };
        assert(0 <= x && (x < width || (narrow && width % 2 == 1 && x == width)));
        let from_a = stored_index(a.data@, columns, narrow, x, y);
        let from_b = stored_index(b.data@, columns, narrow, x, y);
        if x < width {
            assert(colors[from_a] == colors[from_b]);
        }
        assert(from_a == from_b);
    }
    assert(a.data@ =~= b.data@);
}

/// An asset has one form only: the layout, the settings file and the pictures follow from what
/// is to be written, and with them whether every file fits its archive.
pub proof fn law_asset_is_unique(
    image: &Image,
    grid_size: u32,
    tile_size: u32,
    mode: GridMode,
    pack: bool,
    index: bool,
    scale: Seq<char>,
    a_stored: &Image,
    a: &AssetPlan,
    b_stored: &Image,
    b: &AssetPlan,
)
    requires
        pack ==> packable(image, grid_size as int),
        is_stored(a_stored, image, grid_size, tile_size, pack, a.layout),
        is_plan_of(a, a_stored, scale, mode, index),
        is_stored(b_stored, image, grid_size, tile_size, pack, b.layout),
        is_plan_of(b, b_stored, scale, mode, index),
    ensures
        a.layout == b.layout,
        a.settings@ == b.settings@,
        same_images(a.images, b.images),
        asset_fits(a.images, a.settings@) == asset_fits(b.images, b.settings@),
{
    if pack {
        law_packing_is_unique(
            a_stored,
            a.layout.packed_tile_offset,
            a.layout.packed_tile_size,
            b_stored,
            b.layout.packed_tile_offset,
            b.layout.packed_tile_size,
            image,
            grid_size as int,
        );
    }
    let colors = sorted_palette(a_stored.data@);
    law_palette_counts_distinct_pixels(a_stored.data@);
    assert(worth_indexing(a_stored) == worth_indexing(b_stored));
    match (a.images, b.images) {
        (
            AssetImages::Indexed { pixels: a_pixels, indices: a_indices },
            AssetImages::Indexed { pixels: b_pixels, indices: b_indices },
        ) => {
            lemma_palette_picture_unique(&a_pixels, &b_pixels, colors);
            lemma_index_picture_unique(
                &a_indices,
                a_stored,
                &b_indices,
                b_stored,
                colors,
                is_narrow(palette_slots(colors.len() as int)),
            );
        },
        _ => {},
    }
}

/// Whether a pixel is marked can be seen from the pixel alone.
proof fn lemma_same_mark(a: &Image, ax: int, ay: int, b: &Image, bx: int, by: int)
    requires
        a.wf(),
        b.wf(),
        0 <= ax < a.width,
        0 <= ay < a.height,
        0 <= bx < b.width,
        0 <= by < b.height,
        a.pixel(ax, ay) == b.pixel(bx, by),
    ensures
        a.marked(ax, ay) == b.marked(bx, by),
{
    lemma_pixel_in_bounds(a.width as int, a.height as int, ax, ay);
    lemma_pixel_in_bounds(b.width as int, b.height as int, bx, by);
    let from_a = pixel_start(a.width as int, ax, ay);
    let from_b = pixel_start(b.width as int, bx, by);
    let pixel = a.pixel(ax, ay);
    assert(pixel[0] == a.data@[from_a] && pixel[0] == b.data@[from_b]);
    assert(pixel[1] == a.data@[from_a + 1] && pixel[1] == b.data@[from_b + 1]);
    assert(pixel[2] == a.data@[from_a + 2] && pixel[2] == b.data@[from_b + 2]);
    assert(pixel[3] == a.data@[from_a + 3] && pixel[3] == b.data@[from_b + 3]);
}

/// Packing what was packed cuts off nothing more. That is said of tiles as wide as high, since
/// packing takes every tile for a square.
pub proof fn law_packing_twice_is_packing_once(
    packed: &Image,
    image: &Image,
    grid: int,
    offset: UVec2,
    size: UVec2,
    again: &Image,
    again_offset: UVec2,
    again_size: UVec2,
)
    requires
        packable(image, grid),
        is_packed(packed, image, grid, offset, size),
        size.x == size.y,
        is_packed(again, packed, grid, again_offset, again_size),
    ensures
        again_offset == (UVec2 { x: 0, y: 0 }),
        again_size == size,
        again.width == packed.width,
        again.height == packed.height,
        again.data@ == packed.data@,
{
    let tile = tile_side(image.width as int, grid);
    let side = size.x as int;
    let columns = |i: int| column_used(image, grid, i);
    let rows = |i: int| row_used(image, grid, i);
    let packed_columns = |i: int| column_used(packed, grid, i);
    let packed_rows = |i: int| row_used(packed, grid, i);
    lemma_fundamental_div_mod_converse(side * grid, grid, side, 0);
    assert(tile_side(packed.width as int, grid) == side);
    assert(grid * side == side * grid) by (nonlinear_arith);
    lemma_tiles_fit(image, grid);
    if exists|i: int| 0 <= i < tile && #[trigger] columns(i) {
        lemma_packed_column(packed, image, grid, offset, size, offset.x as int);
        lemma_packed_column(packed, image, grid, offset, size, offset.x + side - 1);
        assert(packed_columns(0) && packed_columns(side - 1));
    }
    if exists|i: int| 0 <= i < tile && #[trigger] rows(i) {
        lemma_packed_row(packed, image, grid, offset, size, offset.y as int);
        lemma_packed_row(packed, image, grid, offset, size, offset.y + side - 1);
        assert(packed_rows(0) && packed_rows(side - 1));
    }
    assert(again_offset == (UVec2 { x: 0, y: 0 }) && again_size == size);
    assert forall|x: int, y: int|
        0 <= x < again.width && 0 <= y < again.height implies #[trigger] again.pixel(x, y)
        == packed.pixel(x, y) by {
        lemma_fundamental_div_mod(x, side);
        lemma_fundamental_div_mod(y, side);
        assert((x / side) * side == side * (x / side)) by (nonlinear_arith);
        assert((y / side) * side == side * (y / side)) by (nonlinear_arith);
    }
    lemma_same_pixels(again, packed);
}

/// A column of the tiles that is used is used in the packed tiles, where it went.
proof fn lemma_packed_column(
    packed: &Image,
    image: &Image,
    grid: int,
    offset: UVec2,
    size: UVec2,
    column: int,
)
    requires
        packable(image, grid),
        is_packed(packed, image, grid, offset, size),
        size.x == size.y,
        column_used(image, grid, column),
    ensures
        column_used(packed, grid, column - offset.x),
{
    let tile = tile_side(image.width as int, grid);
    let (x, y) = choose|x: int, y: int|
        0 <= x < grid * tile && 0 <= y < grid * tile && x % tile == column
            && #[trigger] image.marked(x, y);
    lemma_packed_mark(packed, image, grid, offset, size, x, y);
}

/// A row of the tiles that is used is used in the packed tiles, where it went.
proof fn lemma_packed_row(
    packed: &Image,
    image: &Image,
    grid: int,
    offset: UVec2,
    size: UVec2,
    row: int,
)
    requires
        packable(image, grid),
        is_packed(packed, image, grid, offset, size),
        size.x == size.y,
        row_used(image, grid, row),
    ensures
        row_used(packed, grid, row - offset.y),
{
    let tile = tile_side(image.width as int, grid);
    let (x, y) = choose|x: int, y: int|
        0 <= x < grid * tile && 0 <= y < grid * tile && y % tile == row && #[trigger] image.marked(
            x,
            y,
        );
    lemma_packed_mark(packed, image, grid, offset, size, x, y);
}

/// A marked pixel of the tiles is marked in the packed tiles, where it went.
proof fn lemma_packed_mark(
    packed: &Image,
    image: &Image,
    grid: int,
    offset: UVec2,
    size: UVec2,
    x: int,
    y: int,
)
    requires
        packable(image, grid),
        is_packed(packed, image, grid, offset, size),
        size.x == size.y,
        0 <= x < grid * tile_side(image.width as int, grid),
        0 <= y < grid * tile_side(image.width as int, grid),
        image.marked(x, y),
    ensures
        ({
            let tile = tile_side(image.width as int, grid);
            let side = tile_side(packed.width as int, grid);
            let px = packed_place(tile, offset.x as int, size.x as int, x);
            let py = packed_place(tile, offset.y as int, size.y as int, y);
            &&& 0 <= px < grid * side
            &&& 0 <= py < grid * side
            &&& px % side == x % tile - offset.x
            &&& py % side == y % tile - offset.y
            &&& packed.marked(px, py)
        }),
{
    let tile = tile_side(image.width as int, grid);
    let side = size.x as int;
    let px = packed_place(tile, offset.x as int, side, x);
    let py = packed_place(tile, offset.y as int, side, y);
    lemma_tiles_fit(image, grid);
    law_packing_keeps_marked_pixels(packed, image, grid, offset, size, x, y);
    lemma_same_mark(packed, px, py, image, x, y);
    lemma_fundamental_div_mod_converse(side * grid, grid, side, 0);
    assert(grid * side == side * grid) by (nonlinear_arith);
    assert(0 < tile) by (nonlinear_arith)
        requires
            0 <= tile,
            0 <= x < grid * tile,
    ;
    let columns = |i: int| column_used(image, grid, i);
    let rows = |i: int| row_used(image, grid, i);
    lemma_fundamental_div_mod(x, tile);
    lemma_fundamental_div_mod(y, tile);
    assert(columns(x % tile));
    assert(rows(y % tile));
    lemma_fundamental_div_mod_converse(px, side, x / tile, x % tile - offset.x);
    lemma_fundamental_div_mod_converse(py, side, y / tile, y % tile - offset.y);
}

/// Whether one of the first four bytes of the pixel at column `x` of row `y` is not zero.
pub open spec fn is_drawn(image: &Image, x: int, y: int) -> bool {
    let at = 8 * (y * image.width + x);
    image.data@[at] != 0 || image.data@[at + 1] != 0 || image.data@[at + 2] != 0 || image.data@[at
        + 3] != 0
}

/// Nothing that is drawn is lost when an atlas is packed: a pixel of the tiles with a byte among
/// its first four that is not zero lies in the window that is kept of its tile, and stands in the
/// packed atlas with all its bytes, as far from the window's corner as before.
pub proof fn law_packing_loses_nothing_drawn(
    packed: &Image,
    image: &Image,
    grid: int,
    offset: UVec2,
    size: UVec2,
    x: int,
    y: int,
    b: int,
)
    requires
        packable(image, grid),
        is_packed(packed, image, grid, offset, size),
        0 <= x < grid * (image.width as int / grid),
        0 <= y < grid * (image.width as int / grid),
        is_drawn(image, x, y),
        0 <= b < 8,
    ensures
        ({
            let tile = image.width as int / grid;
            let px = (x / tile) * size.x + (x % tile - offset.x);
            let py = (y / tile) * size.y + (y % tile - offset.y);
            &&& offset.x <= x % tile < offset.x + size.x <= tile
            &&& offset.y <= y % tile < offset.y + size.y <= tile
            &&& 0 <= px < packed.width
            &&& 0 <= py < packed.height
            &&& packed.data@[8 * (py * packed.width + px) + b] == image.data@[8 * (y * image.width
                + x) + b]
        }),
{
    let tile = tile_side(image.width as int, grid);
    lemma_tiles_fit(image, grid);
    law_marked_pixels(image, x, y);
    let at = 8 * (y * image.width + x);
    let pixel = image.pixel(x, y);
    assert(pixel[0] == image.data@[at] && pixel[1] == image.data@[at + 1] && pixel[2]
        == image.data@[at + 2] && pixel[3] == image.data@[at + 3]);
    assert(image.marked(x, y));
    law_packing_keeps_marked_pixels(packed, image, grid, offset, size, x, y);
    assert(0 < tile) by (nonlinear_arith)
        requires
            0 <= tile,
            0 <= x < grid * tile,
    ;
    lemma_fundamental_div_mod(x, tile);
    lemma_fundamental_div_mod(y, tile);
    let columns = |i: int| column_used(image, grid, i);
    let rows = |i: int| row_used(image, grid, i);
    assert(columns(x % tile));
    assert(rows(y % tile));
    let px = packed_place(tile, offset.x as int, size.x as int, x);
    let py = packed_place(tile, offset.y as int, size.y as int, y);
    law_marked_pixels(packed, px, py);
    assert(packed.pixel(px, py)[b] == image.pixel(x, y)[b]);
}

/// The packed atlas holds the window of every tile and nothing else: each of its bytes is that of
/// the pixel at the same place of the same tile, moved by the offset.
pub proof fn law_packed_bytes_come_from_the_atlas(
    packed: &Image,
    image: &Image,
    grid: int,
    offset: UVec2,
    size: UVec2,
    px: int,
    py: int,
    b: int,
)
    requires
        packable(image, grid),
        is_packed(packed, image, grid, offset, size),
        0 <= px < packed.width,
        0 <= py < packed.height,
        0 <= b < 8,
    ensures
        packed.width == size.x * grid,
        packed.height == size.y * grid,
        packed.data@.len() == 8 * ((size.x * grid) * (size.y * grid)),
        ({
            let tile = image.width as int / grid;
            let x = (px / (size.x as int)) * tile + offset.x + px % (size.x as int);
            let y = (py / (size.y as int)) * tile + offset.y + py % (size.y as int);
            &&& 0 <= x < image.width
            &&& 0 <= y < image.height
            &&& packed.data@[8 * (py * packed.width + px) + b] == image.data@[8 * (y * image.width
                + x) + b]
        }),
{
    let tile = tile_side(image.width as int, grid);
    lemma_tiles_fit(image, grid);
    lemma_source_place(tile, grid, offset.x as int, size.x as int, px);
    lemma_source_place(tile, grid, offset.y as int, size.y as int, py);
    let x = source_place(tile, offset.x as int, size.x as int, px);
    let y = source_place(tile, offset.y as int, size.y as int, py);
    law_marked_pixels(packed, px, py);
    law_marked_pixels(image, x, y);
    assert(packed.pixel(px, py)[b] == image.pixel(x, y)[b]);
}

/// The window is the least: where anything is drawn in the tiles, something is drawn in its first
/// and its last column and row; where nothing is, it is the first pixel.
pub proof fn law_packing_window_is_least(
    packed: &Image,
    image: &Image,
    grid: int,
    offset: UVec2,
    size: UVec2,
)
    requires
        packable(image, grid),
        is_packed(packed, image, grid, offset, size),
    ensures
        ({
            let tile = image.width as int / grid;
            let side = grid * tile;
            if exists|x: int, y: int|
                0 <= x < side && 0 <= y < side && #[trigger] is_drawn(image, x, y) {
                &&& exists|x: int, y: int|
                    0 <= x < side && 0 <= y < side && x % tile == offset.x && #[trigger] is_drawn(
                        image,
                        x,
                        y,
                    )
                &&& exists|x: int, y: int|
                    0 <= x < side && 0 <= y < side && x % tile == offset.x + size.x - 1
                        && #[trigger] is_drawn(image, x, y)
                &&& exists|x: int, y: int|
                    0 <= x < side && 0 <= y < side && y % tile == offset.y && #[trigger] is_drawn(
                        image,
                        x,
                        y,
                    )
                &&& exists|x: int, y: int|
                    0 <= x < side && 0 <= y < side && y % tile == offset.y + size.y - 1
                        && #[trigger] is_drawn(image, x, y)
            } else {
                offset.x == 0 && offset.y == 0 && size.x == 1 && size.y == 1
            }
        }),
{
    let tile = tile_side(image.width as int, grid);
    let side = grid * tile;
    lemma_tiles_fit(image, grid);
    let columns = |i: int| column_used(image, grid, i);
    let rows = |i: int| row_used(image, grid, i);
    assert forall|x: int, y: int| 0 <= x < side && 0 <= y < side implies #[trigger] is_drawn(
        image,
        x,
        y,
    ) == image.marked(x, y) by {
        lemma_drawn_is_marked(image, x, y);
    }
    assert forall|x: int, y: int|
        0 <= x < side && 0 <= y < side && #[trigger] image.marked(x, y) implies is_drawn(
        image,
        x,
        y,
    ) && 0 < tile && 0 <= x % tile < tile && 0 <= y % tile < tile by {
        lemma_drawn_is_marked(image, x, y);
        assert(0 < tile) by (nonlinear_arith)
            requires
                0 <= tile,
                0 <= x < grid * tile,
        ;
    }
    if exists|x: int, y: int| 0 <= x < side && 0 <= y < side && #[trigger] is_drawn(image, x, y) {
        let (x, y) = choose|x: int, y: int|
            0 <= x < side && 0 <= y < side && #[trigger] is_drawn(image, x, y);
        assert(image.marked(x, y));
        assert(columns(x % tile) && rows(y % tile));
        assert(columns(offset.x as int) && columns(offset.x + size.x - 1));
        assert(rows(offset.y as int) && rows(offset.y + size.y - 1));
    } else {
        assert forall|i: int| 0 <= i < tile implies !#[trigger] columns(i) by {}
        assert forall|i: int| 0 <= i < tile implies !#[trigger] rows(i) by {}
    }
}

/// A pixel is marked where it is drawn.
proof fn lemma_drawn_is_marked(image: &Image, x: int, y: int)
    requires
        image.wf(),
        0 <= x < image.width,
        0 <= y < image.height,
    ensures
        is_drawn(image, x, y) == image.marked(x, y),
{
    law_marked_pixels(image, x, y);
    let at = 8 * (y * image.width + x);
    let pixel = image.pixel(x, y);
    assert(pixel[0] == image.data@[at] && pixel[1] == image.data@[at + 1] && pixel[2]
        == image.data@[at + 2] && pixel[3] == image.data@[at + 3]);
}

/// An asset that is not indexed keeps the bytes of the image, each pixel as two of the picture.
pub proof fn law_direct_picture_is_the_image(images: AssetImages, image: &Image, index: bool)
    requires
        are_images_of(images, image, index),
        images is Direct,
    ensures
        images->texture.width == 2 * image.width,
        images->texture.height == image.height,
        images->texture.data@ == image.data@,
{
}

/// Whether the first byte in which two texts of bytes differ is less in the first.
pub open spec fn comes_before(a: Seq<u8>, b: Seq<u8>) -> bool {
    exists|i: int|
        0 <= i < a.len() && i < b.len() && #[trigger] a[i] < b[i] && forall|j: int|
            0 <= j < i ==> #[trigger] a[j] == b[j]
}

/// The picture of the distinct pixels of an image of `distinct` different ones has them in the
/// smallest square, of which the rows that stay empty are left out.
pub proof fn law_palette_picture_is_a_block(images: AssetImages, image: &Image, distinct: int)
    requires
        image.wf(),
        are_images_of(images, image, true),
        images is Indexed,
        distinct == sorted_palette(image.data@).len(),
    ensures
        ({
            let side = images->pixels.width as int / 2;
            let rows = images->pixels.height as int;
            &&& images->pixels.width == 2 * side
            &&& images->pixels.data@.len() == 8 * (side * rows)
            &&& distinct <= side * side
            &&& 0 < side ==> (side - 1) * (side - 1) < distinct
            &&& distinct <= side * rows
            &&& 0 < distinct ==> side * (rows - 1) < distinct
        }),
{
    let bytes = 8 * distinct;
    let side = block_side(bytes);
    let rows = block_rows(bytes, side);
    lemma_block_side(bytes);
    lemma_block_rows(bytes, side);
    assert(4 * ((2 * side) * rows) == 8 * (side * rows)) by (nonlinear_arith);
}

/// The picture of the distinct pixels of an image of `distinct` different ones, byte by byte: each
/// of them comes before the next in the order of their bytes and is a pixel of the image, every
/// pixel of the image is among them, and zeros come after them.
pub proof fn law_palette_picture_in_bytes(
    images: AssetImages,
    image: &Image,
    distinct: int,
    i: int,
    j: int,
    p: int,
    k: int,
)
    requires
        image.wf(),
        are_images_of(images, image, true),
        images is Indexed,
        distinct == sorted_palette(image.data@).len(),
        0 <= i < distinct,
        0 <= j < distinct,
        0 <= p < image.width * image.height,
        8 * distinct <= k,
    ensures
        i < j ==> comes_before(
            images->pixels.data@.subrange(8 * i, 8 * i + 8),
            images->pixels.data@.subrange(8 * j, 8 * j + 8),
        ),
        exists|q: int|
            0 <= q < image.width * image.height && #[trigger] image.data@.subrange(
                8 * q,
                8 * q + 8,
            ) == images->pixels.data@.subrange(8 * i, 8 * i + 8),
        exists|q: int|
            0 <= q < distinct && #[trigger] images->pixels.data@.subrange(8 * q, 8 * q + 8)
                == image.data@.subrange(8 * p, 8 * p + 8),
        k < images->pixels.data@.len() ==> images->pixels.data@[k] == 0,
{
    let colors = sorted_palette(image.data@);
    let keys = pixel_keys(image.data@);
    let data = images->pixels.data@;
    law_palette_counts_distinct_pixels(image.data@);
    assert(is_palette_picture(&images->pixels, colors));
    assert(data.subrange(8 * i, 8 * i + 8) == key_bytes(colors[i]));
    assert(data.subrange(8 * j, 8 * j + 8) == key_bytes(colors[j]));
    if i < j {
        lemma_less_comes_before(colors[i], colors[j]);
    }
    assert(keys.contains(colors[i]));
    let a = choose|a: int| 0 <= a < keys.len() && keys[a] == colors[i];
    lemma_key_bytes(image.data@, 8 * a);
    assert(image.data@.subrange(8 * a, 8 * a + 8) == key_bytes(colors[i]));
    assert(colors.contains(keys[p]));
    let q = choose|q: int| 0 <= q < colors.len() && colors[q] == keys[p];
    lemma_key_bytes(image.data@, 8 * p);
    assert(data.subrange(8 * q, 8 * q + 8) == key_bytes(colors[q]));
}

/// A number that is less has bytes that come before.
proof fn lemma_less_comes_before(a: u64, b: u64)
    requires
        a < b,
    ensures
        comes_before(key_bytes(a), key_bytes(b)),
{
    let first = key_bytes(a);
    let second = key_bytes(b);
    lemma_bytes_key(a);
    lemma_bytes_key(b);
    let i = lemma_first_difference(first, second, 0);
    if second[i] < first[i] {
        law_pixels_compare_byte_by_byte(second, 0, first, 0, i);
    }
    assert(first[i] < second[i]);
}

/// The first byte in which pixels of different numbers differ, from `from` on.
proof fn lemma_first_difference(a: Seq<u8>, b: Seq<u8>, from: int) -> (i: int)
    requires
        a.len() == 8,
        b.len() == 8,
        0 <= from < 8,
        pixel_key(a, 0) != pixel_key(b, 0),
        forall|j: int| 0 <= j < from ==> #[trigger] a[j] == b[j],
    ensures
        from <= i < 8,
        a[i] != b[i],
        forall|j: int| 0 <= j < i ==> #[trigger] a[j] == b[j],
    decreases 8 - from,
{
    if a[from] != b[from] {
        from
    } else if from == 7 {
        assert forall|j: int| 0 <= j < 7 implies #[trigger] a[0 + j] == b[0 + j] by {}
        law_pixels_compare_byte_by_byte(a, 0, b, 0, 7);
        from
    } else {
        lemma_first_difference(a, b, from + 1)
    }
}

/// The bytes of a number stand for it.
proof fn lemma_bytes_key(key: u64)
    ensures
        pixel_key(key_bytes(key), 0) == key,
{
    assert(key / 0x100_0000_0000_0000 < 256 && key == (key / 0x100_0000_0000_0000)
        * 0x100_0000_0000_0000 + (key / 0x1_0000_0000_0000 % 256) * 0x1_0000_0000_0000 + (key
        / 0x100_0000_0000 % 256) * 0x100_0000_0000 + (key / 0x1_0000_0000 % 256) * 0x1_0000_0000
        + (key / 0x100_0000 % 256) * 0x100_0000 + (key / 0x1_0000 % 256) * 0x1_0000 + (key / 0x100
        % 256) * 0x100 + key % 256) by (bit_vector);
}

/// The picture of the places, byte by byte. A place takes two bytes where the block of distinct
/// pixels has fewer than 65536, else four, the least significant first; it is the first place of
/// the block that holds the pixel. Rows are filled up with zeros to whole words.
pub proof fn law_index_picture_in_bytes(images: AssetImages, image: &Image, x: int, y: int)
    requires
        image.wf(),
        are_images_of(images, image, true),
        images is Indexed,
        0 <= x < image.width,
        0 <= y < image.height,
    ensures
        ({
            let colors = images->pixels.data@;
            let data = images->indices.data@;
            let narrow = (images->pixels.width as int / 2) * images->pixels.height < 65536;
            let columns = if narrow {
                (image.width + 1) / 2
            } else {
                image.width as int
            };
            let at = 4 * (y * columns) + if narrow {
                2 * x
            } else {
                4 * x
            };
            let place = if narrow {
                data[at] + 256 * data[at + 1]
            } else {
                data[at] + 256 * data[at + 1] + 65536 * data[at + 2] + 16777216 * data[at + 3]
            };
            let from = 8 * (y * image.width + x);
            &&& images->indices.width == columns
            &&& images->indices.height == image.height
            &&& data.len() == 4 * (columns * image.height)
            &&& 0 <= place
            &&& 8 * place + 8 <= colors.len()
            &&& colors.subrange(8 * place, 8 * place + 8) == image.data@.subrange(from, from + 8)
            &&& forall|q: int|
                0 <= q < place ==> #[trigger] colors.subrange(8 * q, 8 * q + 8)
                    != image.data@.subrange(from, from + 8)
            &&& narrow && image.width % 2 == 1 ==> data[4 * (y * columns) + 2 * image.width] == 0
                && data[4 * (y * columns) + 2 * image.width + 1] == 0
        }),
{
    let palette = sorted_palette(image.data@);
    let colors = images->pixels.data@;
    let indices = images->indices;
    let bytes = 8 * palette.len() as int;
    let narrow = is_narrow(palette_slots(palette.len() as int));
    let columns = index_columns(image.width as int, narrow);
    let from = pixel_start(image.width as int, x, y);
    law_indexing_is_lossless(images, image, x, y);
    law_palette_counts_distinct_pixels(image.data@);
    lemma_pixel_in_bounds(image.width as int, image.height as int, x, y);
    assert(images->pixels.width as int / 2 == block_side(bytes));
    let place = stored_index(indices.data@, columns, narrow, x, y);
    assert(0 <= place < palette.len() && palette[place] == pixel_key(image.data@, from));
    lemma_key_bytes(image.data@, from);
    assert forall|q: int| 0 <= q < place implies #[trigger] colors.subrange(8 * q, 8 * q + 8)
        != image.data@.subrange(from, from + 8) by {
        assert(colors.subrange(8 * q, 8 * q + 8) == key_bytes(palette[q]));
        assert(palette[q] < palette[place]);
        lemma_bytes_key(palette[q]);
        lemma_bytes_key(palette[place]);
    }
    if narrow && image.width % 2 == 1 {
        assert(stored_index(indices.data@, columns, narrow, image.width as int, y) == 0);
    }
}

/// Whether these are the bytes of a pixel of `image`.
pub open spec fn has_pixel(image: &Image, pixel: Seq<u8>) -> bool {
    exists|p: int|
        0 <= p < image.width * image.height && #[trigger] image.data@.subrange(8 * p, 8 * p + 8)
            == pixel
}

/// An asset is indexed exactly where that is asked for and takes fewer bytes: those of the block
/// of its different pixels, eight each, and those of the places, two each where the block has
/// fewer than 65536, else four, with rows of whole words. The block is the smallest square that
/// holds them, without the rows that stay empty.
pub proof fn law_indexed_where_that_saves_bytes(
    images: AssetImages,
    image: &Image,
    index: bool,
    distinct: Seq<Seq<u8>>,
    side: int,
    rows: int,
)
    requires
        image.wf(),
        are_images_of(images, image, index),
        distinct.no_duplicates(),
        forall|p: int|
            0 <= p < image.width * image.height ==> distinct.contains(
                #[trigger] image.data@.subrange(8 * p, 8 * p + 8),
            ),
        forall|i: int|
            0 <= i < distinct.len() ==> has_pixel(image, #[trigger] distinct[i]),
        0 < side,
        (side - 1) * (side - 1) < distinct.len() <= side * side,
        side * (rows - 1) < distinct.len() <= side * rows,
    ensures
        ({
            let columns = if side * rows < 65536 {
                (image.width + 1) / 2
            } else {
                image.width as int
            };
            images is Indexed <==> index && 8 * (side * rows) + 4 * (columns * image.height) < 8
                * (image.width * image.height)
        }),
{
    let keys = pixel_keys(image.data@);
    let n = distinct.len() as int;
    let numbers = Seq::new(distinct.len(), |i: int| pixel_key(distinct[i], 0));
    assert(keys.len() == image.width * image.height);
    assert forall|p: int| 0 <= p < keys.len() implies #[trigger] keys[p] == pixel_key(
        image.data@.subrange(8 * p, 8 * p + 8),
        0,
    ) by {}
    assert forall|i: int, j: int| 0 <= i < j < numbers.len() implies numbers[i] != numbers[j] by {
        assert(distinct[i] != distinct[j]);
        let p = choose|p: int|
            0 <= p < image.width * image.height && #[trigger] image.data@.subrange(8 * p, 8 * p + 8)
                == distinct[i];
        let q = choose|q: int|
            0 <= q < image.width * image.height && #[trigger] image.data@.subrange(8 * q, 8 * q + 8)
                == distinct[j];
        lemma_key_bytes(distinct[i], 0);
        lemma_key_bytes(distinct[j], 0);
        assert(distinct[i].subrange(0, 8) =~= distinct[i]);
        assert(distinct[j].subrange(0, 8) =~= distinct[j]);
    }
    assert(numbers.to_set() =~= keys.to_set()) by {
        assert forall|k: u64| numbers.to_set().contains(k) implies keys.to_set().contains(k) by {
            let i = choose|i: int| 0 <= i < numbers.len() && numbers[i] == k;
            let p = choose|p: int|
                0 <= p < image.width * image.height && #[trigger] image.data@.subrange(
                    8 * p,
                    8 * p + 8,
                ) == distinct[i];
            assert(keys[p] == k);
        }
        assert forall|k: u64| keys.to_set().contains(k) implies numbers.to_set().contains(k) by {
            let p = choose|p: int| 0 <= p < keys.len() && keys[p] == k;
            assert(distinct.contains(image.data@.subrange(8 * p, 8 * p + 8)));
            let i = choose|i: int|
                0 <= i < distinct.len() && distinct[i] == image.data@.subrange(8 * p, 8 * p + 8);
            assert(numbers[i] == k);
        }
    }
    numbers.unique_seq_to_set();
    assert(distinct_pixels(image.data@) == n);
    lemma_block_side(8 * n);
    assert(is_block_side(side, 8 * n));
    lemma_block_side_unique(side, block_side(8 * n), 8 * n);
    lemma_block_rows(8 * n, side);
    let found = block_rows(8 * n, side);
    assert(found == rows) by (nonlinear_arith)
        requires
            0 < side,
            side * (rows - 1) < n <= side * rows,
            side * (found - 1) < n <= side * found,
    ;
}

/// What is planned of an image, from the image and what is asked for: whether it is indexed, by the
/// number of bytes that saves, and what the settings file says.
pub proof fn law_planned_asset(
    plan: &AssetPlan,
    stored: &Image,
    scale: Seq<char>,
    mode: GridMode,
    index: bool,
    distinct: Seq<Seq<u8>>,
    side: int,
    rows: int,
)
    requires
        stored.wf(),
        is_plan_of(plan, stored, scale, mode, index),
        distinct.no_duplicates(),
        forall|p: int|
            0 <= p < stored.width * stored.height ==> distinct.contains(
                #[trigger] stored.data@.subrange(8 * p, 8 * p + 8),
            ),
        forall|i: int|
            0 <= i < distinct.len() ==> has_pixel(stored, #[trigger] distinct[i]),
        0 < side,
        (side - 1) * (side - 1) < distinct.len() <= side * side,
        side * (rows - 1) < distinct.len() <= side * rows,
    ensures
        ({
            let columns = if side * rows < 65536 {
                (stored.width + 1) / 2
            } else {
                stored.width as int
            };
            plan.images is Indexed <==> index && 8 * (side * rows) + 4 * (columns * stored.height)
                < 8 * (stored.width * stored.height)
        }),
        plan.images is Direct ==> plan.images->texture.data@ == stored.data@,
        plan.settings@ == decimal_text(plan.layout.grid_size as nat) + seq![32u8] + encode_utf8(
            scale,
        ) + seq![32u8] + encode_utf8(
            match mode {
                GridMode::Spherical => "spherical"@,
                GridMode::Hemispherical => "hemispherical"@,
                GridMode::Horizontal => "Horizontal"@,
            },
        ) + seq![32u8] + decimal_text(plan.layout.base_tile_size as nat) + seq![32u8]
            + decimal_text(plan.layout.packed_tile_offset.x as nat) + seq![32u8] + decimal_text(
            plan.layout.packed_tile_offset.y as nat,
        ) + seq![32u8] + decimal_text(plan.layout.packed_tile_size.x as nat) + seq![32u8]
            + decimal_text(plan.layout.packed_tile_size.y as nat),
{
    law_indexed_where_that_saves_bytes(plan.images, stored, index, distinct, side, rows);
    law_settings_file(plan.layout, encode_utf8(scale), mode);
}

} // verus!
