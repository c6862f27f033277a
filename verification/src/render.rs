//! The material that shows an imposter: its data, its flags, and what the shaders are told of
//! them.
use vstd::prelude::*;
use vstd::std_specs::convert::{FromSpec, FromSpecImpl};

use crate::math::{FloatBits, UVec2, Vec2, Vec3, Vec4, ZERO_BITS};
use crate::oct_coords::{law_modes, GridMode, GRID_MASK};

verus! {

/// Samples of the atlas are blended.
pub const RENDER_MULTISAMPLE_FLAG: u32 = 16;

/// The atlas is stored as distinct pixels and places.
pub const INDEXED_FLAG: u32 = 32;

/// One of the nearest tiles is picked by a screen-space pattern.
pub const DITHER_FLAG: u32 = 64;

/// Alpha keeps its coverage at a distance.
pub const COVERAGE_FLAG: u32 = 128;

/// Detail fades at a distance.
pub const DETAIL_FADE_FLAG: u32 = 256;

/// What the shaders read of an imposter.
#[derive(Clone, Copy, Debug, PartialEq, Eq, Structural)]
pub struct ImposterData {
    pub center_and_scale: Vec4,
    pub packed_tile_offset: UVec2,
    pub packed_tile_size: UVec2,
    pub grid_size: u32,
    pub base_tile_size: u32,
    pub flags: u32,
    pub alpha: FloatBits,
    /// Near and far distances between which the imposter dissolves; zeros where it does not.
    pub swap_fade: Vec2,
}

/// What the flags of an imposter say.
#[derive(Clone, Copy, Debug, PartialEq, Eq, Structural)]
pub struct ImposterFlags {
    pub mode: GridMode,
    pub multisample: bool,
    pub indexed: bool,
    pub dither: bool,
    pub coverage: bool,
    pub fade: bool,
}

/// `flag` where `set`, else nothing.
pub open spec fn flag_if(set: bool, flag: u32) -> int {
    if set {
        flag as int
    } else {
        0
    }
}

impl ImposterFlags {
    /// The flags as one number.
    pub open spec fn encoded(self) -> u32 {
        (self.mode.flags() + flag_if(self.multisample, RENDER_MULTISAMPLE_FLAG) + flag_if(
            self.indexed,
            INDEXED_FLAG,
        ) + flag_if(self.dither, DITHER_FLAG) + flag_if(self.coverage, COVERAGE_FLAG) + flag_if(
            self.fade,
            DETAIL_FADE_FLAG,
        )) as u32
    }

    /// The flags as one number.
    pub fn encode(&self) -> (r: u32)
        ensures
            r == self.encoded(),
            r < 512,
            r % 16 == match self.mode {
                GridMode::Spherical => 0u32,
                GridMode::Hemispherical => 1,
                GridMode::Horizontal => 2,
            },
            (r / 16 % 2 == 1) == self.multisample,
            (r / 32 % 2 == 1) == self.indexed,
            (r / 64 % 2 == 1) == self.dither,
            (r / 128 % 2 == 1) == self.coverage,
            (r / 256 % 2 == 1) == self.fade,
    {
        let mut flags: u32 = self.mode.as_flags();
        if self.multisample {
            flags = flags + RENDER_MULTISAMPLE_FLAG;
        }
        if self.indexed {
            flags = flags + INDEXED_FLAG;
        }
        if self.dither {
            flags = flags + DITHER_FLAG;
        }
        if self.coverage {
            flags = flags + COVERAGE_FLAG;
        }
        if self.fade {
            flags = flags + DETAIL_FADE_FLAG;
        }
        assert(flags == self.encoded());
        proof {
            law_flags_are_bits(*self);
        }
        flags
    }
}

impl ImposterData {
    /// The data of an imposter that does not dissolve.
    #[allow(clippy::too_many_arguments)]
    pub fn new(
        center: Vec3,
        scale: FloatBits,
        grid_size: u32,
        base_tile_size: u32,
        packed_tile_offset: UVec2,
        packed_tile_size: UVec2,
        mode: GridMode,
        multisample: bool,
        indexed: bool,
        dither: bool,
        coverage: bool,
        fade: bool,
        alpha: FloatBits,
    ) -> (r: Self)
        ensures
            r == (ImposterData {
                center_and_scale: Vec4 { x: center.x, y: center.y, z: center.z, w: scale },
                packed_tile_offset,
                packed_tile_size,
                grid_size,
                base_tile_size,
                flags: (ImposterFlags {
                    mode,
                    multisample,
                    indexed,
                    dither,
                    coverage,
                    fade,
                }).encoded(),
                alpha,
                swap_fade: Vec2 {
                    x: FloatBits { bits: ZERO_BITS },
                    y: FloatBits { bits: ZERO_BITS },
                },
            }),
            r.swap_fade.x.bits == 0,
            r.swap_fade.y.bits == 0,
            r.flags < 512,
            r.flags % 16 == match mode {
                GridMode::Spherical => 0u32,
                GridMode::Hemispherical => 1,
                GridMode::Horizontal => 2,
            },
            (r.flags / 16 % 2 == 1) == multisample,
            (r.flags / 32 % 2 == 1) == indexed,
            (r.flags / 64 % 2 == 1) == dither,
            (r.flags / 128 % 2 == 1) == coverage,
            (r.flags / 256 % 2 == 1) == fade,
    {
        let flags = ImposterFlags { mode, multisample, indexed, dither, coverage, fade };
        ImposterData {
            center_and_scale: center.extend(scale),
            packed_tile_offset,
            packed_tile_size,
            grid_size,
            base_tile_size,
            flags: flags.encode(),
            alpha,
            swap_fade: Vec2 { x: FloatBits { bits: ZERO_BITS }, y: FloatBits { bits: ZERO_BITS } },
        }
    }
}

/// How the alpha of an imposter is used.
#[derive(Clone, Copy, Debug, PartialEq, Eq, Structural)]
pub enum AlphaMode {
    Blend,
    Opaque,
    /// What lies below the threshold is cut out.
    Mask(FloatBits),
}

/// The words of one texel.
#[derive(Clone, Copy, Debug, PartialEq, Eq, Structural)]
pub enum TexelFormat {
    /// One 32-bit word.
    R32Uint,
    /// Two 32-bit words.
    Rg32Uint,
}

impl TexelFormat {
    /// The bytes of one texel.
    pub open spec fn texel_bytes(self) -> int {
        match self {
            TexelFormat::R32Uint => 4,
            TexelFormat::Rg32Uint => 8,
        }
    }
}

/// A texture, before it is handed to the renderer.
#[derive(Debug)]
pub struct Texture {
    pub width: u32,
    pub height: u32,
    pub format: TexelFormat,
    pub data: Vec<u8>,
}

/// What a texture is made of.
pub struct TextureModel {
    pub width: int,
    pub height: int,
    pub format: TexelFormat,
    pub data: Seq<u8>,
}

impl TextureModel {
    /// The bytes of all the texels.
    pub open spec fn bytes(self) -> int {
        self.format.texel_bytes() * (self.width * self.height)
    }

    /// The buffer holds exactly the texels.
    pub open spec fn wf(self) -> bool {
        self.data.len() == self.bytes()
    }
}

impl View for Texture {
    type V = TextureModel;

    open spec fn view(&self) -> TextureModel {
        TextureModel {
            width: self.width as int,
            height: self.height as int,
            format: self.format,
            data: self.data@,
        }
    }
}

/// The single texel that stands for the places where there are none.
pub open spec fn dummy_indices_model() -> TextureModel {
    TextureModel {
        width: 1,
        height: 1,
        format: TexelFormat::R32Uint,
        data: seq![0u8, 0u8, 0u8, 0u8],
    }
}

/// The single texel that stands for the places where there are none.
pub fn dummy_indices() -> (r: Texture)
    ensures
        r@ == dummy_indices_model(),
        r.width == 1,
        r.height == 1,
        r.format == TexelFormat::R32Uint,
        r.data@ == seq![0u8, 0u8, 0u8, 0u8],
{
    let mut data: Vec<u8> = Vec::new();
    data.push(0);
    data.push(0);
    data.push(0);
    data.push(0);
    assert(data@ =~= seq![0u8, 0u8, 0u8, 0u8]);
    Texture { width: 1, height: 1, format: TexelFormat::R32Uint, data }
}

/// An imposter: its data, its textures, and how it is blended.
#[derive(Debug)]
pub struct Imposter {
    pub data: ImposterData,
    pub pixels: Texture,
    pub indices: Texture,
    pub alpha_mode: AlphaMode,
    /// What the textures take in video memory.
    pub vram_bytes: usize,
}

/// What an imposter is made of.
pub struct ImposterModel {
    pub data: ImposterData,
    pub pixels: TextureModel,
    pub indices: TextureModel,
    pub alpha_mode: AlphaMode,
    pub vram_bytes: int,
}

impl View for Imposter {
    type V = ImposterModel;

    open spec fn view(&self) -> ImposterModel {
        ImposterModel {
            data: self.data,
            pixels: self.pixels@,
            indices: self.indices@,
            alpha_mode: self.alpha_mode,
            vram_bytes: self.vram_bytes as int,
        }
    }
}

/// What a pipeline for imposters depends on: the flags.
#[derive(Clone, Copy, Debug, PartialEq, Eq, Hash)]
pub struct ImposterKey(pub u32);

impl FromSpecImpl<&Imposter> for ImposterKey {
    open spec fn obeys_from_spec() -> bool {
        true
    }

    open spec fn from_spec(value: &Imposter) -> Self {
        ImposterKey(value.data.flags)
    }
}

impl From<&Imposter> for ImposterKey {
    fn from(value: &Imposter) -> (r: Self) {
        ImposterKey(value.data.flags)
    }
}

/// The views of a sequence of names.
pub open spec fn names(defs: Seq<&'static str>) -> Seq<Seq<char>> {
    defs.map_values(|def: &'static str| def@)
}

/// `name` alone where `set`, else nothing.
pub open spec fn name_if(set: bool, name: Seq<char>) -> Seq<Seq<char>> {
    if set {
        seq![name]
    } else {
        seq![]
    }
}

/// The shader definition of the grid mode that the flags hold, if they hold one.
pub open spec fn grid_def(flags: u32) -> Option<Seq<char>> {
    if flags & GRID_MASK == GridMode::Hemispherical.flags() {
        Some("GRID_HEMISPHERICAL"@)
    } else if flags & GRID_MASK == GridMode::Spherical.flags() {
        Some("GRID_SPHERICAL"@)
    } else if flags & GRID_MASK == GridMode::Horizontal.flags() {
        Some("GRID_HORIZONTAL"@)
    } else {
        None
    }
}

/// The shader definitions that the fragment shader gets for the flags.
pub open spec fn fragment_defs(flags: u32) -> Seq<Seq<char>> {
    name_if(flags & RENDER_MULTISAMPLE_FLAG != 0, "MATERIAL_MULTISAMPLE"@) + seq![
        grid_def(flags).unwrap(),
    ] + name_if(flags & INDEXED_FLAG != 0, "INDEXED_PIXELS"@) + name_if(
        flags & DITHER_FLAG != 0,
        "DITHERED"@,
    ) + name_if(flags & COVERAGE_FLAG != 0, "COVERAGE_PRESERVE"@) + name_if(
        flags & DETAIL_FADE_FLAG != 0,
        "DETAIL_FADE"@,
    )
}

impl ImposterKey {
    /// Whether the flags hold a grid mode.
    pub fn has_grid_mode(&self) -> (r: bool)
        ensures
            r == (grid_def(self.0) is Some),
            r == (self.0 % 4 != 3),
    {
        let mode: u32 = self.0 & GRID_MASK;
        let key: u32 = self.0;
        assert(key & 3 == key % 4) by (bit_vector);
        mode == 0 || mode == 1 || mode == 2
    }
}

impl Imposter {
    /// Appends the shader definitions that the flags ask for: the grid mode for the vertex
    /// shader, and all of them for the fragment shader.
    pub fn specialize(
        vertex: &mut Vec<&'static str>,
        fragment: &mut Vec<&'static str>,
        key: ImposterKey,
    )
        requires
            grid_def(key.0) is Some,
        ensures
            names(final(vertex)@) == names(old(vertex)@).push(grid_def(key.0).unwrap()),
            names(final(fragment)@) == names(old(fragment)@) + fragment_defs(key.0),
            final(vertex)@.len() == old(vertex)@.len() + 1,
            final(vertex)@.last()@ == if key.0 % 4 == 0 {
                "GRID_SPHERICAL"@
            } else if key.0 % 4 == 1 {
                "GRID_HEMISPHERICAL"@
            } else {
                "GRID_HORIZONTAL"@
            },
            ({
                let added = names(final(fragment)@).skip(old(fragment)@.len() as int);
                &&& added.contains("MATERIAL_MULTISAMPLE"@) <==> key.0 / 16 % 2 == 1
                &&& added.contains("INDEXED_PIXELS"@) <==> key.0 / 32 % 2 == 1
                &&& added.contains("DITHERED"@) <==> key.0 / 64 % 2 == 1
                &&& added.contains("COVERAGE_PRESERVE"@) <==> key.0 / 128 % 2 == 1
                &&& added.contains("DETAIL_FADE"@) <==> key.0 / 256 % 2 == 1
                &&& added.contains("GRID_SPHERICAL"@) <==> key.0 % 4 == 0
                &&& added.contains("GRID_HEMISPHERICAL"@) <==> key.0 % 4 == 1
                &&& added.contains("GRID_HORIZONTAL"@) <==> key.0 % 4 == 2
            }),
    {
        if (key.0 & RENDER_MULTISAMPLE_FLAG) != 0 {
            fragment.push("MATERIAL_MULTISAMPLE");
        }
        let mode: u32 = key.0 & GRID_MASK;
        let hemispherical = GridMode::Hemispherical;
        let spherical = GridMode::Spherical;
        let grid_mode = if mode == hemispherical.as_flags() {
            "GRID_HEMISPHERICAL"
        } else if mode == spherical.as_flags() {
            "GRID_SPHERICAL"
        } else {
            "GRID_HORIZONTAL"
        };
        vertex.push(grid_mode);
        fragment.push(grid_mode);
        if (key.0 & INDEXED_FLAG) != 0 {
            fragment.push("INDEXED_PIXELS");
        }
        if (key.0 & DITHER_FLAG) != 0 {
            fragment.push("DITHERED");
        }
        if (key.0 & COVERAGE_FLAG) != 0 {
            fragment.push("COVERAGE_PRESERVE");
        }
        if (key.0 & DETAIL_FADE_FLAG) != 0 {
            fragment.push("DETAIL_FADE");
        }
        assert(names(vertex@) =~= names(old(vertex)@).push(grid_def(key.0).unwrap()));
        assert(names(fragment@) =~= names(old(fragment)@) + fragment_defs(key.0));
        proof {
            assert(names(fragment@).skip(old(fragment)@.len() as int) =~= fragment_defs(key.0));
            assert(names(vertex@)[old(vertex)@.len() as int] == vertex@.last()@);
            law_vertex_definition(key.0);
            law_fragment_definitions(key.0);
        }
    }
}

/// The flags can be read back: the mode from under the mask, and every other flag from its bit.
pub proof fn law_flags_recovered(flags: ImposterFlags)
    ensures
        flags.encoded() & GRID_MASK == flags.mode.flags(),
        (flags.encoded() & RENDER_MULTISAMPLE_FLAG != 0) == flags.multisample,
        (flags.encoded() & INDEXED_FLAG != 0) == flags.indexed,
        (flags.encoded() & DITHER_FLAG != 0) == flags.dither,
        (flags.encoded() & COVERAGE_FLAG != 0) == flags.coverage,
        (flags.encoded() & DETAIL_FADE_FLAG != 0) == flags.fade,
{
    let mode = flags.mode.flags();
    let a: u32 = flag_if(flags.multisample, RENDER_MULTISAMPLE_FLAG) as u32;
    let b: u32 = flag_if(flags.indexed, INDEXED_FLAG) as u32;
    let c: u32 = flag_if(flags.dither, DITHER_FLAG) as u32;
    let d: u32 = flag_if(flags.coverage, COVERAGE_FLAG) as u32;
    let e: u32 = flag_if(flags.fade, DETAIL_FADE_FLAG) as u32;
    let all: u32 = flags.encoded();
    assert(all & 3 == mode && (all & 16 != 0) == (a != 0) && (all & 32 != 0) == (b != 0) && (all
        & 64 != 0) == (c != 0) && (all & 128 != 0) == (d != 0) && (all & 256 != 0) == (e != 0))
        by (bit_vector)
        requires
            all == mode + a + b + c + d + e,
            mode <= 2,
            a == 0 || a == 16,
            b == 0 || b == 32,
            c == 0 || c == 64,
            d == 0 || d == 128,
            e == 0 || e == 256,
    ;
}

/// The flags of an imposter always hold a grid mode.
pub proof fn law_flags_name_the_mode(flags: ImposterFlags)
    ensures
        grid_def(flags.encoded()) == Some(
            match flags.mode {
                GridMode::Spherical => "GRID_SPHERICAL"@,
                GridMode::Hemispherical => "GRID_HEMISPHERICAL"@,
                GridMode::Horizontal => "GRID_HORIZONTAL"@,
            },
        ),
{
    law_flags_recovered(flags);
}

/// What the fragment shader is told, bit by bit: each definition comes exactly where its own bit
/// is set, whatever the other bits are, and one of the grid modes always comes. None comes twice,
/// and no other comes.
pub proof fn law_fragment_definitions(flags: u32)
    requires
        grid_def(flags) is Some,
    ensures
        fragment_defs(flags).contains("MATERIAL_MULTISAMPLE"@) <==> flags / 16 % 2 == 1,
        fragment_defs(flags).contains("INDEXED_PIXELS"@) <==> flags / 32 % 2 == 1,
        fragment_defs(flags).contains("DITHERED"@) <==> flags / 64 % 2 == 1,
        fragment_defs(flags).contains("COVERAGE_PRESERVE"@) <==> flags / 128 % 2 == 1,
        fragment_defs(flags).contains("DETAIL_FADE"@) <==> flags / 256 % 2 == 1,
        fragment_defs(flags).contains("GRID_SPHERICAL"@) <==> flags % 4 == 0,
        fragment_defs(flags).contains("GRID_HEMISPHERICAL"@) <==> flags % 4 == 1,
        fragment_defs(flags).contains("GRID_HORIZONTAL"@) <==> flags % 4 == 2,
        fragment_defs(flags).no_duplicates(),
        forall|i: int|
            0 <= i < fragment_defs(flags).len() ==> is_fragment_name(
                #[trigger] fragment_defs(flags)[i],
            ),
{
    let none = Seq::<Seq<char>>::empty();
    let grid = grid_def(flags).unwrap();
    let a = none + name_if(flags & RENDER_MULTISAMPLE_FLAG != 0, "MATERIAL_MULTISAMPLE"@);
    let b = a + name_if(true, grid);
    let c = b + name_if(flags & INDEXED_FLAG != 0, "INDEXED_PIXELS"@);
    let d = c + name_if(flags & DITHER_FLAG != 0, "DITHERED"@);
    let e = d + name_if(flags & COVERAGE_FLAG != 0, "COVERAGE_PRESERVE"@);
    let f = e + name_if(flags & DETAIL_FADE_FLAG != 0, "DETAIL_FADE"@);
    assert(a =~= name_if(flags & RENDER_MULTISAMPLE_FLAG != 0, "MATERIAL_MULTISAMPLE"@));
    assert(f == fragment_defs(flags));
    lemma_flag_bits(flags);
    lemma_definition_names();
    lemma_more_names(none, flags & RENDER_MULTISAMPLE_FLAG != 0, "MATERIAL_MULTISAMPLE"@);
    lemma_more_names(a, true, grid);
    lemma_more_names(b, flags & INDEXED_FLAG != 0, "INDEXED_PIXELS"@);
    lemma_more_names(c, flags & DITHER_FLAG != 0, "DITHERED"@);
    lemma_more_names(d, flags & COVERAGE_FLAG != 0, "COVERAGE_PRESERVE"@);
    lemma_more_names(e, flags & DETAIL_FADE_FLAG != 0, "DETAIL_FADE"@);
    assert forall|i: int| 0 <= i < f.len() implies is_fragment_name(#[trigger] f[i]) by {
        assert(f.contains(f[i]));
    }
}

/// Names with one more, or none, hold what they held and that one.
proof fn lemma_more_names(names: Seq<Seq<char>>, set: bool, name: Seq<char>)
    requires
        names.no_duplicates(),
        !names.contains(name),
    ensures
        (names + name_if(set, name)).no_duplicates(),
        forall|other: Seq<char>| #[trigger] (names + name_if(set, name)).contains(other) <==>
            names.contains(other) || set && other == name,
{
    let more = names + name_if(set, name);
    assert forall|other: Seq<char>| #[trigger] more.contains(other) <==> names.contains(other)
        || set && other == name by {
        if names.contains(other) {
            let i = choose|i: int| 0 <= i < names.len() && names[i] == other;
            assert(more[i] == other);
        }
        if set && other == name {
            assert(more[names.len() as int] == other);
        }
        if more.contains(other) {
            let i = choose|i: int| 0 <= i < more.len() && more[i] == other;
            assert(i < names.len() ==> names[i] == other);
        }
    }
    assert forall|i: int, j: int| 0 <= i < j < more.len() implies more[i] != more[j] by {
        assert(more[i] == names[i]);
        if j == names.len() {
            assert(names.contains(names[i]));
        }
    }
}

/// Whether a fragment shader of an imposter knows a definition of this name.
pub open spec fn is_fragment_name(name: Seq<char>) -> bool {
    ||| name == "MATERIAL_MULTISAMPLE"@
    ||| name == "GRID_SPHERICAL"@
    ||| name == "GRID_HEMISPHERICAL"@
    ||| name == "GRID_HORIZONTAL"@
    ||| name == "INDEXED_PIXELS"@
    ||| name == "DITHERED"@
    ||| name == "COVERAGE_PRESERVE"@
    ||| name == "DETAIL_FADE"@
}

/// A single bit is set where the number, divided by it, is odd.
proof fn lemma_flag_bits(flags: u32)
    ensures
        flags & 3 == flags % 4,
        (flags & 16 != 0) == (flags / 16 % 2 == 1),
        (flags & 32 != 0) == (flags / 32 % 2 == 1),
        (flags & 64 != 0) == (flags / 64 % 2 == 1),
        (flags & 128 != 0) == (flags / 128 % 2 == 1),
        (flags & 256 != 0) == (flags / 256 % 2 == 1),
{
    assert(flags & 3 == flags % 4 && (flags & 16 != 0) == (flags / 16 % 2 == 1) && (flags & 32
        != 0) == (flags / 32 % 2 == 1) && (flags & 64 != 0) == (flags / 64 % 2 == 1) && (flags
        & 128 != 0) == (flags / 128 % 2 == 1) && (flags & 256 != 0) == (flags / 256 % 2 == 1))
        by (bit_vector);
}

/// The names of the definitions differ.
proof fn lemma_definition_names()
    ensures
        "MATERIAL_MULTISAMPLE"@.len() == 20,
        "GRID_SPHERICAL"@.len() == 14,
        "GRID_HEMISPHERICAL"@.len() == 18,
        "GRID_HORIZONTAL"@.len() == 15,
        "INDEXED_PIXELS"@.len() == 14,
        "DITHERED"@.len() == 8,
        "COVERAGE_PRESERVE"@.len() == 17,
        "DETAIL_FADE"@.len() == 11,
        "GRID_SPHERICAL"@ != "INDEXED_PIXELS"@,
{
    reveal_strlit("MATERIAL_MULTISAMPLE");
    reveal_strlit("GRID_SPHERICAL");
    reveal_strlit("GRID_HEMISPHERICAL");
    reveal_strlit("GRID_HORIZONTAL");
    reveal_strlit("INDEXED_PIXELS");
    reveal_strlit("DITHERED");
    reveal_strlit("COVERAGE_PRESERVE");
    reveal_strlit("DETAIL_FADE");
    assert("GRID_SPHERICAL"@[0] != "INDEXED_PIXELS"@[0]);
}

/// The flags of an imposter tell the fragment shader what the imposter is: each definition comes
/// exactly where the imposter is so.
pub proof fn law_imposter_definitions(flags: ImposterFlags)
    ensures
        grid_def(flags.encoded()) is Some,
        ({
            let defs = fragment_defs(flags.encoded());
            &&& defs.contains("MATERIAL_MULTISAMPLE"@) <==> flags.multisample
            &&& defs.contains("INDEXED_PIXELS"@) <==> flags.indexed
            &&& defs.contains("DITHERED"@) <==> flags.dither
            &&& defs.contains("COVERAGE_PRESERVE"@) <==> flags.coverage
            &&& defs.contains("DETAIL_FADE"@) <==> flags.fade
            &&& defs.contains("GRID_SPHERICAL"@) <==> flags.mode == GridMode::Spherical
            &&& defs.contains("GRID_HEMISPHERICAL"@) <==> flags.mode == GridMode::Hemispherical
            &&& defs.contains("GRID_HORIZONTAL"@) <==> flags.mode == GridMode::Horizontal
        }),
{
    law_flags_recovered(flags);
    law_flags_name_the_mode(flags);
    law_modes(flags.mode);
    lemma_flag_bits(flags.encoded());
    law_fragment_definitions(flags.encoded());
}

/// The vertex shader is told the grid mode alone; three of the four numbers of two bits have one.
pub proof fn law_vertex_definition(flags: u32)
    ensures
        flags % 4 == 0 <==> grid_def(flags) == Some("GRID_SPHERICAL"@),
        flags % 4 == 1 <==> grid_def(flags) == Some("GRID_HEMISPHERICAL"@),
        flags % 4 == 2 <==> grid_def(flags) == Some("GRID_HORIZONTAL"@),
        flags % 4 == 3 <==> grid_def(flags) is None,
{
    lemma_flag_bits(flags);
    lemma_definition_names();
}

/// The flags as one number: the mode in the lowest bits, and each of the others a bit of its own.
pub proof fn law_flags_are_bits(flags: ImposterFlags)
    ensures
        flags.encoded() < 512,
        flags.encoded() % 16 == match flags.mode {
            GridMode::Spherical => 0u32,
            GridMode::Hemispherical => 1,
            GridMode::Horizontal => 2,
        },
        (flags.encoded() / 16 % 2 == 1) == flags.multisample,
        (flags.encoded() / 32 % 2 == 1) == flags.indexed,
        (flags.encoded() / 64 % 2 == 1) == flags.dither,
        (flags.encoded() / 128 % 2 == 1) == flags.coverage,
        (flags.encoded() / 256 % 2 == 1) == flags.fade,
{
}

/// Pipelines of imposters differ exactly where their flags do.
pub proof fn law_key_is_the_flags(a: &Imposter, b: &Imposter)
    ensures
        <ImposterKey as FromSpec<&Imposter>>::from_spec(a).0 == a.data.flags,
        <ImposterKey as FromSpec<&Imposter>>::from_spec(a) == <ImposterKey as FromSpec<
            &Imposter,
        >>::from_spec(b) <==> a.data.flags == b.data.flags,
{
}

} // verus!
