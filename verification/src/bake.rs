//! The camera that bakes an imposter, and the textures that its bake takes.
use vstd::prelude::*;

use crate::math::{FloatBits, UVec2, ONE_BITS};
use crate::oct_coords::GridMode;
use crate::progress::{BakeSettings, BakeState};
use crate::render::{TexelFormat, Texture};
use crate::settings::same_text;

verus! {

/// A camera that bakes an imposter.
#[derive(Clone, Copy, Debug, PartialEq, Eq)]
pub struct ImposterBakeCamera {
    /// How far from the camera what is baked may reach.
    pub radius: FloatBits,
    /// Tiles in each direction.
    pub grid_size: u32,
    /// Pixels in each direction of a tile.
    pub tile_size: u32,
    /// Samples in each direction that are averaged for a pixel.
    pub multisample: u32,
    /// How the views of the tiles are spread over the directions.
    pub grid_mode: GridMode,
    /// When the camera is drawn: before those of a higher order.
    pub order: isize,
    /// Whether the camera bakes again and again.
    pub continuous: bool,
    /// Whether the bake waits until everything visible can be drawn.
    pub wait_for_render: bool,
    /// Tiles drawn in one frame at most.
    pub max_tiles_per_frame: usize,
    /// Where the bake stands.
    pub state: BakeState,
}

impl Default for ImposterBakeCamera {
    fn default() -> (r: Self)
        ensures
            r == (ImposterBakeCamera {
                radius: FloatBits { bits: ONE_BITS },
                grid_size: 8,
                tile_size: 64,
                multisample: 8,
                grid_mode: GridMode::Spherical,
                order: -99isize,
                continuous: false,
                wait_for_render: true,
                max_tiles_per_frame: usize::MAX,
                state: BakeState::Rendering,
            }),
            r.radius.bits == 0x3f80_0000,
    {
        ImposterBakeCamera {
            radius: FloatBits { bits: ONE_BITS },
            grid_size: 8,
            tile_size: 64,
            multisample: 8,
            grid_mode: GridMode::Spherical,
            order: -99,
            continuous: false,
            wait_for_render: true,
            max_tiles_per_frame: usize::MAX,
            state: BakeState::Rendering,
        }
    }
}

impl ImposterBakeCamera {
    /// The pixels of the atlas in each direction.
    pub open spec fn atlas_side(self) -> int {
        self.tile_size * self.grid_size
    }

    /// Whether the tiles of the atlas, its pixels in each direction, and the samples of a tile in
    /// each direction can be counted in 32 bits.
    pub open spec fn countable(self) -> bool {
        &&& self.grid_size * self.grid_size <= u32::MAX
        &&& self.atlas_side() <= u32::MAX
        &&& self.tile_size * self.multisample <= u32::MAX
    }

    /// Whether the tiles, pixels and samples can be counted in 32 bits.
    pub fn is_countable(&self) -> (r: bool)
        ensures
            r == self.countable(),
            r == (self.grid_size * self.grid_size <= 0xffff_ffff && self.tile_size * self.grid_size
                <= 0xffff_ffff && self.tile_size * self.multisample <= 0xffff_ffff),
    {
        self.grid_size.checked_mul(self.grid_size).is_some() && self.tile_size.checked_mul(
            self.grid_size,
        ).is_some() && self.tile_size.checked_mul(self.multisample).is_some()
    }

    /// The pixels of the atlas in each direction.
    pub fn atlas_size(&self) -> (r: u32)
        requires
            self.atlas_side() <= u32::MAX,
        ensures
            r == self.atlas_side(),
            r == self.tile_size * self.grid_size,
    {
        self.tile_size * self.grid_size
    }

    /// A blank texture of the size and format of the atlas, for a bake to be copied to.
    pub fn init_target(&self) -> (r: Texture)
        requires
            self.atlas_side() <= u32::MAX,
            8 * (self.atlas_side() * self.atlas_side()) <= isize::MAX,
        ensures
            r@.width == self.atlas_side(),
            r@.height == self.atlas_side(),
            r@.format == TexelFormat::Rg32Uint,
            r@.wf(),
            r.width == self.tile_size * self.grid_size,
            r.height == self.tile_size * self.grid_size,
            r.data@.len() == 8 * (r.width * r.height),
            forall|i: int| 0 <= i < r@.data.len() ==> #[trigger] r@.data[i] == 0,
    {
        let side: u32 = self.tile_size * self.grid_size;
        assert(0 <= side * side) by (nonlinear_arith)
            requires
                0 <= side,
        ;
        let bytes: usize = 8 * (side as usize * side as usize);
        let mut data: Vec<u8> = Vec::new();
        let mut i: usize = 0;
        while i < bytes
            invariant
                i <= bytes,
                data@.len() == i,
                forall|k: int| 0 <= k < i ==> #[trigger] data@[k] == 0,
            decreases bytes - i,
        {
            data.push(0);
            i = i + 1;
        }
        Texture { width: side, height: side, format: TexelFormat::Rg32Uint, data }
    }

    /// Whether a blank texture of the size of the atlas can be addressed.
    pub fn can_init_target(&self) -> (r: bool)
        ensures
            r == (self.atlas_side() <= u32::MAX && 8 * (self.atlas_side() * self.atlas_side())
                <= isize::MAX),
            r == (self.tile_size * self.grid_size <= 0xffff_ffff && 8 * ((self.tile_size
                * self.grid_size) * (self.tile_size * self.grid_size)) <= isize::MAX),
    {
        match self.tile_size.checked_mul(self.grid_size) {
            Some(side) => {
                assert(0 <= side * side <= 0xffff_ffff * 0xffff_ffff) by (nonlinear_arith)
                    requires
                        0 <= side <= 0xffff_ffff,
                ;
                8 * (side as u128 * side as u128) <= isize::MAX as u128
            },
            None => false,
        }
    }

    /// What a frame of the bake depends on.
    pub fn settings(&self, expected_count: usize) -> (r: BakeSettings)
        requires
            self.grid_size * self.grid_size <= u32::MAX,
        ensures
            r == (BakeSettings {
                tiles: (self.grid_size * self.grid_size) as usize,
                multisample: self.multisample,
                max_tiles: self.max_tiles_per_frame,
                expected_count,
                wait_for_render: self.wait_for_render,
            }),
    {
        let tiles: u32 = self.grid_size * self.grid_size;
        BakeSettings {
            tiles: tiles as usize,
            multisample: self.multisample,
            max_tiles: self.max_tiles_per_frame,
            expected_count,
            wait_for_render: self.wait_for_render,
        }
    }

    /// Where the tile of a column and row starts in the atlas.
    pub fn tile_start(&self, tile: UVec2) -> (r: UVec2)
        requires
            tile.x < self.grid_size,
            tile.y < self.grid_size,
            self.atlas_side() <= u32::MAX,
        ensures
            r.x == tile.x * self.tile_size,
            r.y == tile.y * self.tile_size,
            r.x + self.tile_size <= self.atlas_side(),
            r.y + self.tile_size <= self.atlas_side(),
            r.x + self.tile_size <= self.tile_size * self.grid_size,
            r.y + self.tile_size <= self.tile_size * self.grid_size,
    {
        assert(tile.x * self.tile_size + self.tile_size <= self.tile_size * self.grid_size && tile.y
            * self.tile_size + self.tile_size <= self.tile_size * self.grid_size)
            by (nonlinear_arith)
            requires
                0 <= tile.x < self.grid_size,
                0 <= tile.y < self.grid_size,
                0 <= self.tile_size,
        ;
        assert(0 <= tile.x * self.tile_size && 0 <= tile.y * self.tile_size) by (nonlinear_arith)
            requires
                0 <= tile.x,
                0 <= tile.y,
                0 <= self.tile_size,
        ;
        UVec2 { x: tile.x * self.tile_size, y: tile.y * self.tile_size }
    }
}

/// The textures that a bake takes, by their pixels in each direction.
#[derive(Clone, Copy, Debug, PartialEq, Eq)]
pub struct TexturePlan {
    /// The atlas.
    pub output: u32,
    /// One tile with all its samples, where samples are averaged.
    pub intermediate: Option<u32>,
    /// The depth of what is drawn.
    pub depth: u32,
    /// Whether samples are averaged by a pass of their own.
    pub blit: bool,
}

/// The textures that a bake takes: with one sample tiles are drawn straight into the atlas; else
/// each is drawn apart, as many times larger as there are samples, and averaged.
pub fn plan_textures(grid_size: u32, tile_size: u32, multisample: u32) -> (r: TexturePlan)
    requires
        tile_size * grid_size <= u32::MAX,
        tile_size * multisample <= u32::MAX,
    ensures
        r.output == tile_size * grid_size,
        multisample == 1 ==> r.intermediate is None && r.depth == r.output,
        multisample != 1 ==> r.intermediate == Some((tile_size * multisample) as u32) && r.depth
            == tile_size * multisample,
        r.blit == (multisample > 1),
{
    let output: u32 = tile_size * grid_size;
    let samples: u32 = tile_size * multisample;
    if multisample == 1 {
        TexturePlan { output, intermediate: None, depth: output, blit: false }
    } else {
        TexturePlan {
            output,
            intermediate: Some(samples),
            depth: samples,
            blit: multisample > 1,
        }
    }
}

/// Whether the environment asks for a trace of the bake: the variable is `1`, `true` or `on`.
pub fn debug_enabled(variable: Option<&str>) -> (r: bool)
    ensures
        r == match variable {
            Some(value) => value@ == "1"@ || value@ == "true"@ || value@ == "on"@,
            None => false,
        },
{
    match variable {
        Some(value) => same_text(value, "1") || same_text(value, "true") || same_text(value, "on"),
        None => false,
    }
}

/// Whether there are views for all the tiles, where a user gives them: as many as there are
/// tiles, at least.
pub fn enough_transforms(transforms: Option<usize>, grid_size: u32) -> (r: bool)
    requires
        grid_size * grid_size <= u32::MAX,
    ensures
        r == match transforms {
            Some(count) => grid_size * grid_size <= count,
            None => true,
        },
{
    let tiles: u32 = grid_size * grid_size;
    match transforms {
        Some(count) => tiles as usize <= count,
        None => true,
    }
}

/// Different tiles of an atlas lie side by side: they have no pixel in common, and none reaches
/// beyond the atlas.
pub proof fn law_tiles_do_not_overlap(
    camera: &ImposterBakeCamera,
    a: UVec2,
    b: UVec2,
    at_a: UVec2,
    at_b: UVec2,
)
    requires
        call_ensures(ImposterBakeCamera::tile_start, (camera, a), at_a),
        call_ensures(ImposterBakeCamera::tile_start, (camera, b), at_b),
    ensures
        at_a.x + camera.tile_size <= camera.tile_size * camera.grid_size,
        at_a.y + camera.tile_size <= camera.tile_size * camera.grid_size,
        a.x < b.x ==> at_a.x + camera.tile_size <= at_b.x,
        a.y < b.y ==> at_a.y + camera.tile_size <= at_b.y,
        b.x == a.x + 1 ==> at_b.x == at_a.x + camera.tile_size,
        b.y == a.y + 1 ==> at_b.y == at_a.y + camera.tile_size,
        a.x == 0 ==> at_a.x == 0,
        a.y == 0 ==> at_a.y == 0,
{
    let size = camera.tile_size as int;
    if a.x < b.x {
        assert((a.x + 1) * size <= b.x * size) by (nonlinear_arith)
            requires
                a.x + 1 <= b.x,
                0 <= size,
        ;
    }
    if a.y < b.y {
        assert((a.y + 1) * size <= b.y * size) by (nonlinear_arith)
            requires
                a.y + 1 <= b.y,
                0 <= size,
        ;
    }
    assert((a.x + 1) * size == a.x * size + size && (a.y + 1) * size == a.y * size + size)
        by (nonlinear_arith);
    assert(0 * size == 0);
}

/// What is drawn has room: the depth is as large as what is drawn into, which is the atlas itself
/// with one sample, and else a texture of one tile with all its samples.
pub proof fn law_depth_fits_what_is_drawn(
    grid_size: u32,
    tile_size: u32,
    multisample: u32,
    plan: TexturePlan,
)
    requires
        call_ensures(plan_textures, (grid_size, tile_size, multisample), plan),
    ensures
        plan.output == tile_size * grid_size,
        plan.depth == match plan.intermediate {
            Some(side) => side,
            None => plan.output,
        },
        plan.intermediate is None <==> multisample == 1,
        plan.intermediate matches Some(side) ==> side == tile_size * multisample,
        plan.blit <==> plan.intermediate is Some && multisample != 0,
{
}

/// A trace is asked for by three texts, and by no other.
pub proof fn law_trace_is_asked_for(value: &str, with: bool, without: bool)
    requires
        call_ensures(debug_enabled, (Some(value),), with),
        call_ensures(debug_enabled, (None::<&str>,), without),
    ensures
        !without,
        value@ == "1"@ || value@ == "true"@ || value@ == "on"@ <==> with,
{
}

/// One view more never makes too few of enough, and a grid needs as many views as it has tiles.
pub proof fn law_enough_views(grid_size: u32, count: usize, enough: bool, free: bool)
    requires
        call_ensures(enough_transforms, (Some(count), grid_size), enough),
        call_ensures(enough_transforms, (None::<usize>, grid_size), free),
    ensures
        free,
        enough <==> grid_size * grid_size <= count,
{
}

/// A bake draws every tile of its grid, waits as its camera does, and draws as many tiles in a
/// frame as its camera allows.
pub proof fn law_bake_follows_its_camera(
    camera: &ImposterBakeCamera,
    expected_count: usize,
    settings: BakeSettings,
)
    requires
        camera.grid_size * camera.grid_size <= u32::MAX,
        call_ensures(ImposterBakeCamera::settings, (camera, expected_count), settings),
    ensures
        settings.tiles == camera.grid_size * camera.grid_size,
        settings.multisample == camera.multisample,
        settings.max_tiles == camera.max_tiles_per_frame,
        settings.expected_count == expected_count,
        settings.wait_for_render == camera.wait_for_render,
{
}

} // verus!
