//! Imposter assets: archives of pictures and a settings file, written and loaded.
use vstd::arithmetic::div_mod::lemma_fundamental_div_mod;
use vstd::prelude::*;
use vstd::utf8::{decode_utf8, encode_utf8, encode_utf8_decode_utf8, valid_utf8};

use crate::archive::{
    archive_contents, are_readable, entry_names, entry_start, finish, holds_entries, is_new_name,
    is_plain_name, new_writer, open_archive, read_entry, start_stored_file, write_bytes,
    writer_entries, writer_open, zip_opened, Writer,
};
use crate::atlas::Image;
use crate::indexed::{
    are_images_of, block_rows, block_side, can_store, find_block_rows, find_block_side,
    index_columns, is_block_side, is_narrow, lemma_block_rows, lemma_block_side_unique,
    plan_images, storable, AssetImages, Picture,
};
use crate::laws::law_indexing_saves_bytes;
use crate::math::{FloatBits, UVec2, Vec2, Vec3, Vec4, ONE_BITS, ZERO_BITS};
use crate::oct_coords::{lemma_modes_differ, GridMode};
use crate::pack::{is_packed, pack_asset, packable};
use crate::png::{
    decode_png, encode_png, file_limit, lemma_filtered_bytes, png_decoded, png_encoded,
    png_pixels,
};
use crate::render::{
    dummy_indices, dummy_indices_model, law_flags_are_bits, AlphaMode, Imposter, ImposterData,
    ImposterFlags, ImposterModel, TexelFormat, Texture, TextureModel,
};
use crate::settings::{
    bad_number, fields, lemma_fields_valid, parse_settings, parsed_decimal, parsed_settings,
    same_text, settings_fault, settings_fields, settings_text, utf8_text, views, write_settings,
    AssetSettings, Layout, SettingsError,
};

verus! {

/// Loads imposter assets.
pub struct ImposterLoader;

/// What a user says of an asset to load.
#[derive(Clone, Copy, Debug, PartialEq, Eq, Structural)]
pub struct ImposterLoaderSettings {
    /// Blend samples of the atlas.
    pub multisample: bool,
    /// A factor on alpha.
    pub alpha: FloatBits,
    /// Zero to blend, one for an opaque imposter, else the threshold of a mask.
    pub alpha_blend: FloatBits,
}

impl Default for ImposterLoaderSettings {
    fn default() -> (r: Self)
        ensures
            r == (ImposterLoaderSettings {
                multisample: false,
                alpha: FloatBits { bits: ONE_BITS },
                alpha_blend: FloatBits { bits: ZERO_BITS },
            }),
            !r.multisample,
            r.alpha.bits == 0x3f80_0000,
            r.alpha_blend.bits == 0,
    {
        ImposterLoaderSettings {
            multisample: false,
            alpha: FloatBits { bits: ONE_BITS },
            alpha_blend: FloatBits { bits: ZERO_BITS },
        }
    }
}

/// Why an asset cannot be loaded, with what says more of it.
#[derive(Debug)]
pub enum LoadError {
    /// It is no archive.
    Archive(zip::result::ZipError),
    /// The settings file is missing or cannot be read.
    NoSettings(zip::result::ZipError),
    /// The settings file, whose bytes are `text`, is of no use.
    Settings { error: SettingsError, text: Vec<u8> },
    /// A picture is missing or cannot be read.
    NoPicture(zip::result::ZipError),
    /// A picture cannot be decoded.
    BadPicture(image::ImageError),
    /// A picture does not have the size that the settings give it.
    WrongSize,
    /// A size does not fit 32 bits, or the textures take more memory than a machine can have.
    TooLarge,
    /// The grid mode is not known: its text.
    BadMode(String),
}

/// What the library itself finds wrong with an asset. What an outside error holds is left out.
pub enum LoadFault {
    Archive,
    NoSettings,
    Settings { error: SettingsError, text: Seq<u8> },
    NoPicture,
    BadPicture,
    WrongSize,
    TooLarge,
    BadMode(Seq<char>),
}

impl View for LoadError {
    type V = LoadFault;

    open spec fn view(&self) -> LoadFault {
        match self {
            LoadError::Archive(_) => LoadFault::Archive,
            LoadError::NoSettings(_) => LoadFault::NoSettings,
            LoadError::Settings { error, text } => LoadFault::Settings {
                error: *error,
                text: text@,
            },
            LoadError::NoPicture(_) => LoadFault::NoPicture,
            LoadError::BadPicture(_) => LoadFault::BadPicture,
            LoadError::WrongSize => LoadFault::WrongSize,
            LoadError::TooLarge => LoadFault::TooLarge,
            LoadError::BadMode(text) => LoadFault::BadMode(text@),
        }
    }
}

/// The texture of the distinct pixels whose bytes are `bytes`: a block without gaps.
pub open spec fn palette_texture_of(bytes: Seq<u8>) -> Result<TextureModel, LoadFault> {
    let side = block_side(bytes.len() as int);
    let model = TextureModel {
        width: side,
        height: block_rows(bytes.len() as int, side),
        format: TexelFormat::Rg32Uint,
        data: bytes,
    };
    if model.wf() {
        Ok(model)
    } else {
        Err(LoadFault::WrongSize)
    }
}

/// The texture of the distinct pixels whose bytes are `bytes`.
pub fn palette_texture(bytes: Vec<u8>) -> (r: Result<Texture, LoadError>)
    ensures
        match r {
            Ok(texture) => palette_texture_of(bytes@) == Ok::<_, LoadFault>(texture@),
            Err(error) => palette_texture_of(bytes@) == Err::<TextureModel, _>(error@),
        },
{
    let length: usize = bytes.len();
    let side: u32 = find_block_side(length);
    let rows: u32 = find_block_rows(length, side);
    assert(side * rows <= 0xffff_ffff * 0xffff_ffff) by (nonlinear_arith)
        requires
            side <= 0xffff_ffff,
            rows <= 0xffff_ffff,
    ;
    if length as u128 == 8 * (side as u128 * rows as u128) {
        Ok(Texture { width: side, height: rows, format: TexelFormat::Rg32Uint, data: bytes })
    } else {
        Err(LoadError::WrongSize)
    }
}

/// The pixels of all the tiles of an asset, across and down.
pub open spec fn atlas_size(layout: Layout) -> (int, int) {
    (
        layout.packed_tile_size.x * layout.grid_size,
        layout.packed_tile_size.y * layout.grid_size,
    )
}

/// The texture of `columns` by `rows` texels whose bytes are `bytes`.
pub open spec fn sized_texture_of(
    columns: int,
    rows: int,
    format: TexelFormat,
    bytes: Seq<u8>,
) -> Result<TextureModel, LoadFault> {
    let model = TextureModel { width: columns, height: rows, format, data: bytes };
    if model.wf() {
        Ok(model)
    } else {
        Err(LoadFault::WrongSize)
    }
}

/// The texture of the places whose bytes are `bytes`, of an asset whose block of distinct pixels
/// has `slots` places.
pub open spec fn index_texture_of(layout: Layout, slots: int, bytes: Seq<u8>) -> Result<
    TextureModel,
    LoadFault,
> {
    let (width, height) = atlas_size(layout);
    if width > u32::MAX || height > u32::MAX {
        Err(LoadFault::TooLarge)
    } else {
        sized_texture_of(
            index_columns(width, is_narrow(slots)),
            height,
            TexelFormat::R32Uint,
            bytes,
        )
    }
}

/// The texture of the pixels whose bytes are `bytes`, of an asset that is not indexed.
pub open spec fn direct_texture_of(layout: Layout, bytes: Seq<u8>) -> Result<
    TextureModel,
    LoadFault,
> {
    let (width, height) = atlas_size(layout);
    if width > u32::MAX || height > u32::MAX {
        Err(LoadFault::TooLarge)
    } else {
        sized_texture_of(width, height, TexelFormat::Rg32Uint, bytes)
    }
}

/// The pixels of all the tiles of an asset, across and down, where they fit 32 bits.
fn find_atlas_size(layout: &Layout) -> (r: Result<UVec2, LoadError>)
    ensures
        match r {
            Ok(size) => atlas_size(*layout) == (size.x as int, size.y as int),
            Err(error) => (atlas_size(*layout).0 > u32::MAX || atlas_size(*layout).1 > u32::MAX)
                && error is TooLarge,
        },
{
    let x = layout.packed_tile_size.x.checked_mul(layout.grid_size);
    let y = layout.packed_tile_size.y.checked_mul(layout.grid_size);
    match (x, y) {
        (Some(x), Some(y)) => Ok(UVec2 { x, y }),
        _ => Err(LoadError::TooLarge),
    }
}

/// The texture of `width` by `height` texels whose bytes are `bytes`.
fn sized_texture(width: u32, height: u32, format: TexelFormat, bytes: Vec<u8>) -> (r: Result<
    Texture,
    LoadError,
>)
    ensures
        match r {
            Ok(texture) => sized_texture_of(width as int, height as int, format, bytes@) == Ok::<
                _,
                LoadFault,
            >(texture@),
            Err(error) => sized_texture_of(width as int, height as int, format, bytes@) == Err::<
                TextureModel,
                _,
            >(error@),
        },
{
    let each: u128 = match format {
        TexelFormat::R32Uint => 4,
        TexelFormat::Rg32Uint => 8,
    };
    assert(0 <= width * height <= 0xffff_ffff * 0xffff_ffff) by (nonlinear_arith)
        requires
            0 <= width <= 0xffff_ffff,
            0 <= height <= 0xffff_ffff,
    ;
    let texels: u128 = width as u128 * height as u128;
    assert(each * texels <= 8 * texels) by (nonlinear_arith)
        requires
            each <= 8,
            0 <= texels,
    ;
    if bytes.len() as u128 == each * texels {
        Ok(Texture { width, height, format, data: bytes })
    } else {
        Err(LoadError::WrongSize)
    }
}

/// The texture of the places whose bytes are `bytes`, of an asset whose block of distinct pixels
/// is `palette`.
pub fn index_texture(layout: &Layout, palette: &Texture, bytes: Vec<u8>) -> (r: Result<
    Texture,
    LoadError,
>)
    ensures
        match r {
            Ok(texture) => index_texture_of(
                *layout,
                palette@.width * palette@.height,
                bytes@,
            ) == Ok::<_, LoadFault>(texture@),
            Err(error) => index_texture_of(
                *layout,
                palette@.width * palette@.height,
                bytes@,
            ) == Err::<TextureModel, _>(error@),
        },
{
    let size = match find_atlas_size(layout) {
        Ok(size) => size,
        Err(error) => {
            return Err(error);
        },
    };
    assert(palette.width * palette.height <= 0xffff_ffff * 0xffff_ffff) by (nonlinear_arith)
        requires
            palette.width <= 0xffff_ffff,
            palette.height <= 0xffff_ffff,
    ;
    let width: u32 = if (palette.width as u64 * palette.height as u64) < 65536 {
        size.x / 2 + size.x % 2
    } else {
        size.x
    };
    sized_texture(width, size.y, TexelFormat::R32Uint, bytes)
}

/// The texture of the pixels whose bytes are `bytes`, of an asset that is not indexed.
pub fn direct_texture(layout: &Layout, bytes: Vec<u8>) -> (r: Result<Texture, LoadError>)
    ensures
        match r {
            Ok(texture) => direct_texture_of(*layout, bytes@) == Ok::<_, LoadFault>(texture@),
            Err(error) => direct_texture_of(*layout, bytes@) == Err::<TextureModel, _>(error@),
        },
{
    match find_atlas_size(layout) {
        Ok(size) => sized_texture(size.x, size.y, TexelFormat::Rg32Uint, bytes),
        Err(error) => Err(error),
    }
}

/// The textures of an asset.
#[derive(Debug)]
pub enum AssetTextures {
    Direct { texture: Texture },
    Indexed { pixels: Texture, indices: Texture },
}

/// What the textures of an asset are made of.
pub enum AssetTexturesModel {
    Direct { texture: TextureModel },
    Indexed { pixels: TextureModel, indices: TextureModel },
}

impl View for AssetTextures {
    type V = AssetTexturesModel;

    open spec fn view(&self) -> AssetTexturesModel {
        match self {
            AssetTextures::Direct { texture } => AssetTexturesModel::Direct { texture: texture@ },
            AssetTextures::Indexed { pixels, indices } => AssetTexturesModel::Indexed {
                pixels: pixels@,
                indices: indices@,
            },
        }
    }
}

impl AssetTexturesModel {
    /// What the textures take in video memory.
    pub open spec fn vram_bytes(self) -> int {
        match self {
            AssetTexturesModel::Direct { texture } => texture.bytes(),
            AssetTexturesModel::Indexed { pixels, indices } => pixels.bytes() + indices.bytes(),
        }
    }
}

/// How alpha is used, by what the user says of it.
pub open spec fn alpha_mode_of(alpha_blend: FloatBits) -> AlphaMode {
    if alpha_blend.zero() {
        AlphaMode::Blend
    } else if alpha_blend.one() {
        AlphaMode::Opaque
    } else {
        AlphaMode::Mask(alpha_blend)
    }
}

/// How alpha is used, by what the user says of it.
pub fn alpha_mode(alpha_blend: FloatBits) -> (r: AlphaMode)
    ensures
        r == alpha_mode_of(alpha_blend),
        r is Blend <==> alpha_blend.bits == 0 || alpha_blend.bits == 0x8000_0000,
        r is Opaque <==> alpha_blend.bits == 0x3f80_0000,
        alpha_blend.bits != 0 && alpha_blend.bits != 0x8000_0000 && alpha_blend.bits != 0x3f80_0000
            ==> r == AlphaMode::Mask(alpha_blend),
{
    if alpha_blend.is_zero() {
        AlphaMode::Blend
    } else if alpha_blend.is_one() {
        AlphaMode::Opaque
    } else {
        AlphaMode::Mask(alpha_blend)
    }
}

/// The imposter of the textures and settings of an asset, where `mode` is the text of the grid
/// mode: `TooLarge` where the textures take more memory than a machine can have, and `BadMode`
/// where the grid mode is not known.
pub open spec fn imposter_of(
    settings: AssetSettings,
    mode: Seq<char>,
    options: ImposterLoaderSettings,
    textures: AssetTexturesModel,
) -> Result<ImposterModel, LoadFault> {
    if textures.vram_bytes() > usize::MAX {
        Err(LoadFault::TooLarge)
    } else if settings.mode is None {
        Err(LoadFault::BadMode(mode))
    } else {
        let flags = ImposterFlags {
            mode: settings.mode.unwrap(),
            multisample: options.multisample,
            indexed: textures is Indexed,
            dither: false,
            coverage: false,
            fade: false,
        };
        let zero = FloatBits { bits: ZERO_BITS };
        Ok(
            ImposterModel {
                data: ImposterData {
                    center_and_scale: Vec4 { x: zero, y: zero, z: zero, w: settings.scale },
                    packed_tile_offset: settings.layout.packed_tile_offset,
                    packed_tile_size: settings.layout.packed_tile_size,
                    grid_size: settings.layout.grid_size,
                    base_tile_size: settings.layout.base_tile_size,
                    flags: flags.encoded(),
                    alpha: options.alpha,
                    swap_fade: Vec2 { x: zero, y: zero },
                },
                pixels: match textures {
                    AssetTexturesModel::Direct { texture } => texture,
                    AssetTexturesModel::Indexed { pixels, .. } => pixels,
                },
                indices: match textures {
                    AssetTexturesModel::Direct { .. } => dummy_indices_model(),
                    AssetTexturesModel::Indexed { indices, .. } => indices,
                },
                alpha_mode: alpha_mode_of(options.alpha_blend),
                vram_bytes: textures.vram_bytes(),
            },
        )
    }
}

/// The bytes of all the texels of a texture.
fn texture_bytes(texture: &Texture) -> (r: u128)
    ensures
        r == texture@.bytes(),
        r <= 8 * (0xffff_ffff * 0xffff_ffff),
{
    let each: u128 = match texture.format {
        TexelFormat::R32Uint => 4,
        TexelFormat::Rg32Uint => 8,
    };
    assert(0 <= texture.width * texture.height <= 0xffff_ffff * 0xffff_ffff) by (nonlinear_arith)
        requires
            0 <= texture.width <= 0xffff_ffff,
            0 <= texture.height <= 0xffff_ffff,
    ;
    let texels: u128 = texture.width as u128 * texture.height as u128;
    assert(each * texels <= 8 * texels) by (nonlinear_arith)
        requires
            each <= 8,
            0 <= texels,
    ;
    each * texels
}

/// The imposter of the textures and settings of an asset, where `mode` is the text of the grid
/// mode.
pub fn assemble(
    settings: &AssetSettings,
    mode: &str,
    options: &ImposterLoaderSettings,
    textures: AssetTextures,
) -> (r: Result<Imposter, LoadError>)
    ensures
        match r {
            Ok(imposter) => imposter_of(*settings, mode@, *options, textures@) == Ok::<
                _,
                LoadFault,
            >(imposter@),
            Err(error) => imposter_of(*settings, mode@, *options, textures@) == Err::<
                ImposterModel,
                _,
            >(error@),
        },
{
    let ghost model = textures@;
    let indexed: bool;
    let pixels: Texture;
    let indices: Texture;
    let vram: u128;
    match textures {
        AssetTextures::Direct { texture } => {
            indexed = false;
            vram = texture_bytes(&texture);
            pixels = texture;
            indices = dummy_indices();
        },
        AssetTextures::Indexed { pixels: p, indices: i } => {
            indexed = true;
            vram = texture_bytes(&p) + texture_bytes(&i);
            pixels = p;
            indices = i;
        },
    }
    assert(vram == model.vram_bytes());
    if vram > usize::MAX as u128 {
        return Err(LoadError::TooLarge);
    }
    let grid_mode = match settings.mode {
        Some(grid_mode) => grid_mode,
        None => {
            return Err(LoadError::BadMode(mode.to_owned()));
        },
    };
    let zero = FloatBits { bits: ZERO_BITS };
    let data = ImposterData::new(
        Vec3 { x: zero, y: zero, z: zero },
        settings.scale,
        settings.layout.grid_size,
        settings.layout.base_tile_size,
        settings.layout.packed_tile_offset,
        settings.layout.packed_tile_size,
        grid_mode,
        options.multisample,
        indexed,
        false,
        false,
        false,
        options.alpha,
    );
    Ok(
        Imposter {
            data,
            pixels,
            indices,
            alpha_mode: alpha_mode(options.alpha_blend),
            vram_bytes: vram as usize,
        },
    )
}

/// The pixels of the picture `name` of an archive.
pub open spec fn picture_of(
    contents: Map<Seq<char>, Option<Seq<u8>>>,
    name: Seq<char>,
) -> Result<Seq<u8>, LoadFault> {
    if !contents.contains_key(name) || contents[name] is None {
        Err(LoadFault::NoPicture)
    } else {
        match png_pixels(contents[name].unwrap()) {
            Some(pixels) => Ok(pixels),
            None => Err(LoadFault::BadPicture),
        }
    }
}

/// The textures in an archive: the indexed ones where it has a picture of distinct pixels.
pub open spec fn textures_of(
    contents: Map<Seq<char>, Option<Seq<u8>>>,
    layout: Layout,
) -> Result<AssetTexturesModel, LoadFault> {
    if contents.contains_key("pixels.png"@) {
        match picture_of(contents, "pixels.png"@) {
            Err(error) => Err(error),
            Ok(pixel_bytes) => match palette_texture_of(pixel_bytes) {
                Err(error) => Err(error),
                Ok(pixels) => match picture_of(contents, "indices.png"@) {
                    Err(error) => Err(error),
                    Ok(index_bytes) => match index_texture_of(
                        layout,
                        pixels.width * pixels.height,
                        index_bytes,
                    ) {
                        Err(error) => Err(error),
                        Ok(indices) => Ok(AssetTexturesModel::Indexed { pixels, indices }),
                    },
                },
            },
        }
    } else {
        match picture_of(contents, "texture.png"@) {
            Err(error) => Err(error),
            Ok(bytes) => match direct_texture_of(layout, bytes) {
                Err(error) => Err(error),
                Ok(texture) => Ok(AssetTexturesModel::Direct { texture }),
            },
        }
    }
}

/// The settings file in an archive, if it can be read.
pub open spec fn settings_entry(contents: Map<Seq<char>, Option<Seq<u8>>>) -> Option<Seq<u8>> {
    if contents.contains_key("settings.txt"@) {
        contents["settings.txt"@]
    } else {
        None
    }
}

/// The imposter in an archive, where `scale` is the number that the scale of the settings file
/// stands for, if any; else why there is none.
pub open spec fn loaded_imposter(
    opened: Option<Map<Seq<char>, Option<Seq<u8>>>>,
    options: ImposterLoaderSettings,
    scale: Option<FloatBits>,
) -> Result<ImposterModel, LoadFault> {
    match opened {
        None => Err(LoadFault::Archive),
        Some(contents) => match settings_entry(contents) {
            None => Err(LoadFault::NoSettings),
            Some(text) => match settings_fault(text) {
                Some(error) => Err(LoadFault::Settings { error, text }),
                None => match parsed_settings(fields(text), scale) {
                    Err(error) => Err(LoadFault::Settings { error, text }),
                    Ok(settings) => match textures_of(contents, settings.layout) {
                        Err(error) => Err(error),
                        Ok(textures) => imposter_of(
                            settings,
                            decode_utf8(fields(text)[2]),
                            options,
                            textures,
                        ),
                    },
                },
            },
        },
    }
}

/// The text of the scale in an archive, where its settings file has the fields it needs.
pub open spec fn scale_text(opened: Option<Map<Seq<char>, Option<Seq<u8>>>>) -> Option<Seq<u8>> {
    match opened {
        Some(contents) => match settings_entry(contents) {
            Some(text) => if settings_fault(text) is None {
                Some(fields(text)[1])
            } else {
                None
            },
            None => None,
        },
        None => None,
    }
}

/// The pixels of the picture `name` of an archive.
fn load_picture(
    archive: &mut zip::ZipArchive<std::io::Cursor<Vec<u8>>>,
    name: &str,
) -> (r: Result<Vec<u8>, LoadError>)
    ensures
        archive_contents(*final(archive)) == archive_contents(*old(archive)),
        match r {
            Ok(pixels) => picture_of(archive_contents(*old(archive)), name@) == Ok::<_, LoadFault>(
                pixels@,
            ),
            Err(error) => picture_of(archive_contents(*old(archive)), name@) == Err::<
                Seq<u8>,
                _,
            >(error@),
        },
{
    match read_entry(archive, name) {
        Ok(png) => match decode_png(png) {
            Ok(pixels) => Ok(pixels),
            Err(error) => Err(LoadError::BadPicture(error)),
        },
        Err(error) => Err(LoadError::NoPicture(error)),
    }
}

/// Whether an archive has an entry `name`.
fn has_entry(archive: &zip::ZipArchive<std::io::Cursor<Vec<u8>>>, name: &str) -> (r: bool)
    ensures
        r == archive_contents(*archive).contains_key(name@),
{
    let names = entry_names(archive);
    let mut i: usize = 0;
    while i < names.len()
        invariant
            i <= names@.len(),
            forall|k: int| 0 <= k < i ==> (#[trigger] names@[k])@ != name@,
            forall|k: int|
                0 <= k < names@.len() ==> archive_contents(*archive).contains_key(
                    #[trigger] names@[k]@,
                ),
        decreases names@.len() - i,
    {
        if same_text(names[i].as_str(), name) {
            return true;
        }
        i = i + 1;
    }
    false
}

/// The textures in an archive.
fn load_textures(
    archive: &mut zip::ZipArchive<std::io::Cursor<Vec<u8>>>,
    layout: &Layout,
) -> (r: Result<AssetTextures, LoadError>)
    ensures
        match r {
            Ok(textures) => textures_of(archive_contents(*old(archive)), *layout) == Ok::<
                _,
                LoadFault,
            >(textures@),
            Err(error) => textures_of(archive_contents(*old(archive)), *layout) == Err::<
                AssetTexturesModel,
                _,
            >(error@),
        },
{
    if has_entry(archive, "pixels.png") {
        let pixel_bytes = match load_picture(archive, "pixels.png") {
            Ok(bytes) => bytes,
            Err(error) => {
                return Err(error);
            },
        };
        let pixels = match palette_texture(pixel_bytes) {
            Ok(texture) => texture,
            Err(error) => {
                return Err(error);
            },
        };
        let index_bytes = match load_picture(archive, "indices.png") {
            Ok(bytes) => bytes,
            Err(error) => {
                return Err(error);
            },
        };
        match index_texture(layout, &pixels, index_bytes) {
            Ok(indices) => Ok(AssetTextures::Indexed { pixels, indices }),
            Err(error) => Err(error),
        }
    } else {
        let bytes = match load_picture(archive, "texture.png") {
            Ok(bytes) => bytes,
            Err(error) => {
                return Err(error);
            },
        };
        match direct_texture(layout, bytes) {
            Ok(texture) => Ok(AssetTextures::Direct { texture }),
            Err(error) => Err(error),
        }
    }
}

impl ImposterLoader {
    /// Loads the imposter in the archive `bytes`. `parse_scale` reads a number from text.
    pub fn load<F: Fn(&str) -> Option<FloatBits>>(
        &self,
        bytes: Vec<u8>,
        options: &ImposterLoaderSettings,
        parse_scale: F,
    ) -> (r: Result<Imposter, LoadError>)
        requires
            forall|text: &str| call_requires(parse_scale, (text,)),
        ensures
            exists|scale: Option<FloatBits>|
                {
                    &&& match r {
                        Ok(imposter) => #[trigger] loaded_imposter(
                            zip_opened(bytes@),
                            *options,
                            scale,
                        ) == Ok::<_, LoadFault>(imposter@),
                        Err(error) => loaded_imposter(zip_opened(bytes@), *options, scale) == Err::<
                            ImposterModel,
                            _,
                        >(error@),
                    }
                    &&& scale_text(zip_opened(bytes@)) matches Some(field) ==> exists|text: &str|
                        encode_utf8(text@) == field && #[trigger] call_ensures(
                            parse_scale,
                            (text,),
                            scale,
                        )
                },
    {
        let ghost opened = zip_opened(bytes@);
        let ghost none: Option<FloatBits> = None;
        let mut archive = match open_archive(bytes) {
            Ok(archive) => archive,
            Err(error) => {
                assert(loaded_imposter(opened, *options, none) == Err::<ImposterModel, _>(
                    LoadFault::Archive,
                ));
                return Err(LoadError::Archive(error));
            },
        };
        let text = match read_entry(&mut archive, "settings.txt") {
            Ok(text) => text,
            Err(error) => {
                assert(loaded_imposter(opened, *options, none) == Err::<ImposterModel, _>(
                    LoadFault::NoSettings,
                ));
                return Err(LoadError::NoSettings(error));
            },
        };
        let parts = match settings_fields(&text) {
            Ok(parts) => parts,
            Err(error) => {
                let ghost fault = LoadFault::Settings { error, text: text@ };
                assert(loaded_imposter(opened, *options, none) == Err::<ImposterModel, _>(fault));
                return Err(LoadError::Settings { error, text });
            },
        };
        proof {
            lemma_fields_valid(text@);
            assert(parts@.len() == views(parts@).len());
            assert(views(parts@)[1] == parts@[1]@);
            assert(views(parts@)[2] == parts@[2]@);
        }
        let scale = match utf8_text(&parts[1]) {
            Some(scale_text) => parse_scale(scale_text),
            None => None,
        };
        let settings = match parse_settings(&parts, scale) {
            Ok(settings) => settings,
            Err(error) => {
                let ghost fault = LoadFault::Settings { error, text: text@ };
                assert(loaded_imposter(opened, *options, scale) == Err::<ImposterModel, _>(fault));
                return Err(LoadError::Settings { error, text });
            },
        };
        let textures = match load_textures(&mut archive, &settings.layout) {
            Ok(textures) => textures,
            Err(error) => {
                assert(loaded_imposter(opened, *options, scale) == Err::<ImposterModel, _>(
                    error@,
                ));
                return Err(error);
            },
        };
        let mode = match utf8_text(&parts[2]) {
            Some(mode) => mode,
            None => "",
        };
        proof {
            encode_utf8_decode_utf8(mode@);
        }
        let r = assemble(&settings, mode, options, textures);
        assert(match r {
            Ok(imposter) => loaded_imposter(opened, *options, scale) == Ok::<_, LoadFault>(
                imposter@,
            ),
            Err(error) => loaded_imposter(opened, *options, scale) == Err::<ImposterModel, _>(
                error@,
            ),
        });
        r
    }

    /// The extensions of the files that this loader reads.
    pub fn extensions(&self) -> (r: Vec<&'static str>)
        ensures
            r@ == seq!["boimp"],
    {
        let mut names: Vec<&'static str> = Vec::new();
        names.push("boimp");
        assert(names@ =~= seq!["boimp"]);
        names
    }
}

/// Why an asset cannot be written.
#[derive(Debug)]
pub enum WriteError {
    /// The image is too large to be stored.
    TooLarge,
    /// The archive could not be written.
    Archive(zip::result::ZipError),
}

/// What an asset is made of: its pictures, how its tiles are laid out, and its settings file.
#[derive(Debug)]
pub struct AssetPlan {
    pub images: AssetImages,
    pub layout: Layout,
    pub settings: Vec<u8>,
}

/// `stored` is what an asset keeps of `image`: the image without blank edges where `pack`, else
/// the image itself; and `layout` says so.
pub open spec fn is_stored(
    stored: &Image,
    image: &Image,
    grid_size: u32,
    tile_size: u32,
    pack: bool,
    layout: Layout,
) -> bool {
    &&& layout.grid_size == grid_size
    &&& layout.base_tile_size == tile_size
    &&& if pack {
        is_packed(
            stored,
            image,
            grid_size as int,
            layout.packed_tile_offset,
            layout.packed_tile_size,
        )
    } else {
        &&& stored == image
        &&& layout.packed_tile_offset == (UVec2 { x: 0, y: 0 })
        &&& layout.packed_tile_size == (UVec2 { x: tile_size, y: tile_size })
    }
}

/// `plan` is the asset of `stored`.
pub open spec fn is_plan_of(
    plan: &AssetPlan,
    stored: &Image,
    scale: Seq<char>,
    mode: GridMode,
    index: bool,
) -> bool {
    &&& are_images_of(plan.images, stored, index)
    &&& plan.images.encodable()
    &&& plan.settings@ == settings_text(plan.layout, encode_utf8(scale), mode)
}

/// Plans the asset of `image`: `TooLarge` exactly where what is to be stored is too large.
#[allow(clippy::too_many_arguments)]
pub fn plan_asset(
    scale: &str,
    grid_size: u32,
    tile_size: u32,
    mode: GridMode,
    image: Image,
    pack: bool,
    index: bool,
) -> (r: Result<AssetPlan, WriteError>)
    requires
        image.wf(),
        0 < image.width,
        0 < image.height,
        pack ==> packable(&image, grid_size as int),
    ensures
        match r {
            Ok(plan) => exists|stored: Image| #[trigger]
                is_stored(&stored, &image, grid_size, tile_size, pack, plan.layout) && storable(
                    &stored,
                    index,
                ) && is_plan_of(&plan, &stored, scale@, mode, index),
            Err(error) => error is TooLarge && exists|stored: Image, layout: Layout| #[trigger]
                is_stored(&stored, &image, grid_size, tile_size, pack, layout)
                    && !storable(&stored, index),
        },
        r matches Ok(plan) ==> plan.layout.grid_size == grid_size && plan.layout.base_tile_size
            == tile_size,
        !pack ==> (r is Ok <==> 8 * image.width < 0xffff_ffff && (index ==> 8 * (image.width
            * image.height) <= 0xffff_ffff)),
        !pack ==> (r matches Ok(plan) ==> {
            &&& plan.layout.packed_tile_offset.x == 0
            &&& plan.layout.packed_tile_offset.y == 0
            &&& plan.layout.packed_tile_size.x == tile_size
            &&& plan.layout.packed_tile_size.y == tile_size
        }),
        !index ==> (r matches Ok(plan) ==> plan.images is Direct),
        !pack && !index ==> (r matches Ok(plan) ==> plan.images->texture.data@ == image.data@),
{
    let stored: Image;
    let offset: UVec2;
    let size: UVec2;
    let ghost given = image;
    if pack {
        let packed = pack_asset(grid_size as usize, &image);
        stored = packed.0;
        offset = packed.1;
        size = packed.2;
    } else {
        stored = image;
        offset = UVec2 { x: 0, y: 0 };
        size = UVec2 { x: tile_size, y: tile_size };
    }
    let layout = Layout {
        grid_size,
        base_tile_size: tile_size,
        packed_tile_offset: offset,
        packed_tile_size: size,
    };
    assert(is_stored(&stored, &given, grid_size, tile_size, pack, layout));
    if pack {
        assert(0 < size.x * grid_size && 0 < size.y * grid_size) by (nonlinear_arith)
            requires
                0 < size.x,
                0 < size.y,
                0 < grid_size,
        ;
    }
    if !can_store(stored.width, stored.height, index) {
        return Err(WriteError::TooLarge);
    }
    let ghost kept = stored;
    let settings = write_settings(&layout, scale, mode);
    let images = plan_images(stored, index);
    let plan = AssetPlan { images, layout, settings };
    assert(is_plan_of(&plan, &kept, scale@, mode, index));
    Ok(plan)
}

/// `png` is a picture file that decodes to `pixels`, whatever the byte order.
pub open spec fn is_png_of(png: Seq<u8>, pixels: Seq<u8>) -> bool {
    forall|little_endian: bool| #[trigger]
        png_decoded(png, little_endian, usize::BITS) == Some(pixels)
}

/// The file of a picture.
pub open spec fn picture_file(picture: Picture) -> Seq<u8> {
    png_encoded(picture.width, picture.height, picture.data@)
}

/// The entry `name` of an archive is the file of `picture`, which decodes to its pixels.
pub open spec fn holds_picture(
    contents: Map<Seq<char>, Option<Seq<u8>>>,
    name: Seq<char>,
    picture: Picture,
) -> bool {
    &&& contents.contains_key(name)
    &&& contents[name] == Some(picture_file(picture))
    &&& is_png_of(picture_file(picture), picture.data@)
}

/// An archive holds the pictures and the settings file of an asset, and nothing else.
pub open spec fn holds_asset(
    contents: Map<Seq<char>, Option<Seq<u8>>>,
    images: AssetImages,
    settings: Seq<u8>,
) -> bool {
    &&& contents.contains_key("settings.txt"@)
    &&& contents["settings.txt"@] == Some(settings)
    &&& match images {
        AssetImages::Direct { texture } => {
            &&& holds_picture(contents, "texture.png"@, texture)
            &&& contents.dom() == set!["texture.png"@, "settings.txt"@]
        },
        AssetImages::Indexed { pixels, indices } => {
            &&& holds_picture(contents, "pixels.png"@, pixels)
            &&& holds_picture(contents, "indices.png"@, indices)
            &&& contents.dom() == set!["pixels.png"@, "indices.png"@, "settings.txt"@]
        },
    }
}

/// The entries of the archive of an asset, in order.
pub open spec fn asset_entries(images: AssetImages, settings: Seq<u8>) -> Seq<
    (Seq<char>, Seq<u8>),
> {
    match images {
        AssetImages::Direct { texture } => seq![
            ("texture.png"@, picture_file(texture)),
            ("settings.txt"@, settings),
        ],
        AssetImages::Indexed { pixels, indices } => seq![
            ("pixels.png"@, picture_file(pixels)),
            ("indices.png"@, picture_file(indices)),
            ("settings.txt"@, settings),
        ],
    }
}

/// Whether every file of an asset fits an entry of an archive.
pub open spec fn asset_fits(images: AssetImages, settings: Seq<u8>) -> bool {
    &&& settings.len() <= u32::MAX
    &&& match images {
        AssetImages::Direct { texture } => picture_file(texture).len() <= u32::MAX,
        AssetImages::Indexed { pixels, indices } => picture_file(pixels).len() <= u32::MAX
            && picture_file(indices).len() <= u32::MAX,
    }
}

/// How long the file of a picture is at most.
pub open spec fn picture_limit(picture: Picture) -> int {
    file_limit(picture.width, picture.height)
}

/// Whether every file of an asset fits an entry of an archive, whatever its pixels are.
pub open spec fn asset_is_small(images: AssetImages, settings: Seq<u8>) -> bool {
    &&& settings.len() <= u32::MAX
    &&& match images {
        AssetImages::Direct { texture } => picture_limit(texture) <= u32::MAX,
        AssetImages::Indexed { pixels, indices } => picture_limit(pixels) <= u32::MAX
            && picture_limit(indices) <= u32::MAX,
    }
}

/// No picture file of an asset is longer than it can be.
pub open spec fn files_are_limited(images: AssetImages) -> bool {
    match images {
        AssetImages::Direct { texture } => picture_file(texture).len() <= picture_limit(texture),
        AssetImages::Indexed { pixels, indices } => picture_file(pixels).len() <= picture_limit(
            pixels,
        ) && picture_file(indices).len() <= picture_limit(indices),
    }
}

/// Writes an entry of an archive.
fn write_entry(writer: &mut Writer, name: &str, bytes: &Vec<u8>) -> (r: Result<(), WriteError>)
    requires
        is_plain_name(name@),
        writer_open(*old(writer)),
        is_new_name(writer_entries(*old(writer)), name@),
    ensures
        r is Ok <==> bytes@.len() <= u32::MAX,
        r is Ok ==> writer_open(*final(writer)) && writer_entries(*final(writer))
            == writer_entries(*old(writer)).push((name@, bytes@)),
        r matches Err(error) ==> error is Archive,
{
    match start_stored_file(writer, name) {
        Ok(()) => {},
        Err(error) => {
            return Err(WriteError::Archive(error));
        },
    }
    match write_bytes(writer, bytes) {
        Ok(()) => {},
        Err(error) => {
            return Err(WriteError::Archive(error));
        },
    }
    assert(Seq::<u8>::empty() + bytes@ =~= bytes@);
    assert(writer_entries(*writer) =~= writer_entries(*old(writer)).push((name@, bytes@)));
    Ok(())
}

/// Writes a picture as an entry of an archive.
fn write_picture(writer: &mut Writer, name: &str, picture: Picture) -> (r: Result<(), WriteError>)
    requires
        is_plain_name(name@),
        picture.encodable(),
        writer_open(*old(writer)),
        is_new_name(writer_entries(*old(writer)), name@),
    ensures
        is_png_of(picture_file(picture), picture.data@),
        picture_file(picture).len() <= picture_limit(picture),
        r is Ok <==> picture_file(picture).len() <= u32::MAX,
        r is Ok ==> writer_open(*final(writer)) && writer_entries(*final(writer))
            == writer_entries(*old(writer)).push((name@, picture_file(picture))),
        r matches Err(error) ==> error is Archive,
{
    let png = encode_png(picture);
    write_entry(writer, name, &png)
}

/// The names of the entries of an asset are plain, and no two are the same.
proof fn lemma_entry_names()
    ensures
        is_plain_name("pixels.png"@),
        is_plain_name("indices.png"@),
        is_plain_name("texture.png"@),
        is_plain_name("settings.txt"@),
        "pixels.png"@ != "indices.png"@,
        "pixels.png"@ != "settings.txt"@,
        "indices.png"@ != "settings.txt"@,
        "texture.png"@ != "settings.txt"@,
{
    reveal_strlit("pixels.png");
    reveal_strlit("indices.png");
    reveal_strlit("texture.png");
    reveal_strlit("settings.txt");
    assert("pixels.png"@.len() != "indices.png"@.len());
    assert("pixels.png"@.len() != "settings.txt"@.len());
    assert("indices.png"@.len() != "settings.txt"@.len());
    assert("texture.png"@.len() != "settings.txt"@.len());
}

/// Writes the archive of a planned asset, which succeeds exactly where every file fits an entry,
/// and so for every small asset.
pub fn write_plan(plan: AssetPlan) -> (r: Result<Vec<u8>, WriteError>)
    requires
        plan.images.encodable(),
    ensures
        r is Ok <==> asset_fits(plan.images, plan.settings@),
        asset_is_small(plan.images, plan.settings@) ==> r is Ok,
        r is Ok ==> files_are_limited(plan.images),
        r matches Ok(bytes) ==> are_readable(asset_entries(plan.images, plan.settings@)) ==> (
        zip_opened(bytes@) matches Some(contents) && holds_asset(
            contents,
            plan.images,
            plan.settings@,
        )),
        r matches Err(error) ==> error is Archive,
{
    let ghost given = plan.images;
    proof {
        lemma_entry_names();
    }
    let mut writer = new_writer();
    match plan.images {
        AssetImages::Direct { texture } => {
            match write_picture(&mut writer, "texture.png", texture) {
                Ok(()) => {},
                Err(error) => {
                    return Err(error);
                },
            }
        },
        AssetImages::Indexed { pixels, indices } => {
            match write_picture(&mut writer, "pixels.png", pixels) {
                Ok(()) => {},
                Err(error) => {
                    return Err(error);
                },
            }
            match write_picture(&mut writer, "indices.png", indices) {
                Ok(()) => {},
                Err(error) => {
                    return Err(error);
                },
            }
        },
    }
    match write_entry(&mut writer, "settings.txt", &plan.settings) {
        Ok(()) => {},
        Err(error) => {
            return Err(error);
        },
    }
    let ghost entries = writer_entries(writer);
    assert(entries =~= asset_entries(given, plan.settings@));
    match finish(writer) {
        Ok(bytes) => {
            proof {
                if are_readable(entries) {
                    lemma_holds_asset(zip_opened(bytes@).unwrap(), given, plan.settings@);
                }
            }
            Ok(bytes)
        },
        Err(error) => Err(WriteError::Archive(error)),
    }
}

/// An archive of the entries of an asset holds the asset.
proof fn lemma_holds_asset(
    contents: Map<Seq<char>, Option<Seq<u8>>>,
    images: AssetImages,
    settings: Seq<u8>,
)
    requires
        holds_entries(contents, asset_entries(images, settings)),
        match images {
            AssetImages::Direct { texture } => is_png_of(picture_file(texture), texture.data@),
            AssetImages::Indexed { pixels, indices } => is_png_of(
                picture_file(pixels),
                pixels.data@,
            ) && is_png_of(picture_file(indices), indices.data@),
        },
    ensures
        holds_asset(contents, images, settings),
{
    let entries = asset_entries(images, settings);
    match images {
        AssetImages::Direct { .. } => {
            assert(contents.contains_key(entries[0].0) && contents.contains_key(entries[1].0));
            assert(contents.dom() =~= set!["texture.png"@, "settings.txt"@]);
        },
        AssetImages::Indexed { .. } => {
            assert(contents.contains_key(entries[0].0) && contents.contains_key(entries[1].0)
                && contents.contains_key(entries[2].0));
            assert(contents.dom() =~= set!["pixels.png"@, "indices.png"@, "settings.txt"@]);
        },
    }
}

/// The files of an asset that fit their archive are all read back, as long as the settings file
/// is shorter than the longest entry.
proof fn lemma_asset_readable(
    images: AssetImages,
    settings: Seq<u8>,
    stored: &Image,
    index: bool,
)
    requires
        stored.wf(),
        storable(stored, index),
        are_images_of(images, stored, index),
        images.encodable(),
        asset_fits(images, settings),
        files_are_limited(images),
        settings.len() < u32::MAX,
    ensures
        are_readable(asset_entries(images, settings)),
{
    let entries = asset_entries(images, settings);
    reveal_with_fuel(entry_start, 2);
    match images {
        AssetImages::Direct { .. } => {},
        AssetImages::Indexed { pixels, indices } => {
            law_indexing_saves_bytes(images, stored, index);
            lemma_filtered_bytes(&pixels);
            lemma_filtered_bytes(&indices);
            reveal_strlit("pixels.png");
            assert(entries[0].0.len() == 10);
            assert(entry_start(entries, 1) == 40 + picture_file(pixels).len());
        },
    }
}

/// Writes the asset of `image`, with the text of its scale: the bytes of an archive that holds
/// the planned asset. `TooLarge` comes exactly where what is to be stored is too large, and
/// `Archive` exactly where a file of the planned asset does not fit an entry, which is never so
/// for a small asset.
#[allow(clippy::too_many_arguments)]
pub fn write_asset(
    scale: &str,
    grid_size: u32,
    tile_size: u32,
    mode: GridMode,
    image: Image,
    pack: bool,
    index: bool,
) -> (r: Result<Vec<u8>, WriteError>)
    requires
        image.wf(),
        0 < image.width,
        0 < image.height,
        pack ==> packable(&image, grid_size as int),
    ensures
        match r {
            Ok(bytes) => exists|stored: Image, plan: AssetPlan|
                {
                    &&& is_stored(&stored, &image, grid_size, tile_size, pack, plan.layout)
                    &&& storable(&stored, index)
                    &&& #[trigger] is_plan_of(&plan, &stored, scale@, mode, index)
                    &&& asset_fits(plan.images, plan.settings@)
                    &&& plan.settings@.len() < u32::MAX ==> (zip_opened(bytes@) matches Some(
                        contents,
                    ) && holds_asset(contents, plan.images, plan.settings@))
                },
            Err(WriteError::TooLarge) => exists|stored: Image, layout: Layout| #[trigger]
                is_stored(&stored, &image, grid_size, tile_size, pack, layout) && !storable(
                    &stored,
                    index,
                ),
            Err(WriteError::Archive(_)) => exists|stored: Image, plan: AssetPlan|
                {
                    &&& is_stored(&stored, &image, grid_size, tile_size, pack, plan.layout)
                    &&& storable(&stored, index)
                    &&& #[trigger] is_plan_of(&plan, &stored, scale@, mode, index)
                    &&& !asset_fits(plan.images, plan.settings@)
                    &&& !asset_is_small(plan.images, plan.settings@)
                },
        },
{
    match plan_asset(scale, grid_size, tile_size, mode, image, pack, index) {
        Ok(plan) => {
            let ghost stored = choose|stored: Image| #[trigger]
                is_stored(&stored, &image, grid_size, tile_size, pack, plan.layout) && storable(
                    &stored,
                    index,
                ) && is_plan_of(&plan, &stored, scale@, mode, index);
            let ghost given = plan;
            let r = write_plan(plan);
            proof {
                if r is Ok && given.settings@.len() < u32::MAX {
                    lemma_asset_readable(given.images, given.settings@, &stored, index);
                }
                assert(is_plan_of(&given, &stored, scale@, mode, index));
            }
            r
        },
        Err(error) => Err(error),
    }
}

/// How the alpha of a loaded imposter is used: blended where the user says zero, which has two
/// signs, not at all where the user says one, and else as a mask with what the user says as its
/// threshold.
pub proof fn law_alpha_of_a_loaded_imposter(
    opened: Option<Map<Seq<char>, Option<Seq<u8>>>>,
    options: ImposterLoaderSettings,
    scale: Option<FloatBits>,
)
    ensures
        loaded_imposter(opened, options, scale) matches Ok(imposter) ==> {
            let bits = options.alpha_blend.bits;
            &&& imposter.data.alpha == options.alpha
            &&& imposter.alpha_mode is Blend <==> bits == 0 || bits == 0x8000_0000
            &&& imposter.alpha_mode is Opaque <==> bits == 0x3f80_0000
            &&& bits != 0 && bits != 0x8000_0000 && bits != 0x3f80_0000 ==> imposter.alpha_mode
                == AlphaMode::Mask(options.alpha_blend)
        },
{
}

/// The settings file of an archive is text, and says how the tiles are laid out and which mode
/// they are for.
pub open spec fn file_says(
    contents: Map<Seq<char>, Option<Seq<u8>>>,
    layout: Layout,
    mode: Seq<u8>,
) -> bool {
    &&& contents.contains_key("settings.txt"@)
    &&& contents["settings.txt"@] matches Some(text) && {
        let parts = fields(text);
        &&& valid_utf8(text)
        &&& 8 <= parts.len()
        &&& parsed_decimal(parts[0]) == Some(layout.grid_size)
        &&& parts[2] == mode
        &&& parsed_decimal(parts[3]) == Some(layout.base_tile_size)
        &&& parsed_decimal(parts[4]) == Some(layout.packed_tile_offset.x)
        &&& parsed_decimal(parts[5]) == Some(layout.packed_tile_offset.y)
        &&& parsed_decimal(parts[6]) == Some(layout.packed_tile_size.x)
        &&& parsed_decimal(parts[7]) == Some(layout.packed_tile_size.y)
    }
}

/// The text is the name of a mode.
pub open spec fn is_mode_name(text: Seq<u8>) -> bool {
    ||| text == encode_utf8("spherical"@)
    ||| text == encode_utf8("hemispherical"@)
    ||| text == encode_utf8("Horizontal"@)
}

/// What the shaders read of a loaded imposter: its center is at zero, its scale is the number read
/// for it, it does not dissolve, its sizes are those of the settings file, and the bits of its
/// flags say which mode the file names, whether samples are blended, and whether the archive has a
/// picture of distinct pixels.
pub proof fn law_data_of_a_loaded_imposter(
    contents: Map<Seq<char>, Option<Seq<u8>>>,
    options: ImposterLoaderSettings,
    scale: Option<FloatBits>,
)
    ensures
        loaded_imposter(Some(contents), options, scale) matches Ok(imposter) ==> {
            let data = imposter.data;
            let mode = fields(contents["settings.txt"@].unwrap())[2];
            &&& file_says(
                contents,
                Layout {
                    grid_size: data.grid_size,
                    base_tile_size: data.base_tile_size,
                    packed_tile_offset: data.packed_tile_offset,
                    packed_tile_size: data.packed_tile_size,
                },
                mode,
            )
            &&& is_mode_name(mode)
            &&& data.center_and_scale.x.bits == 0
            &&& data.center_and_scale.y.bits == 0
            &&& data.center_and_scale.z.bits == 0
            &&& scale == Some(data.center_and_scale.w)
            &&& data.swap_fade.x.bits == 0
            &&& data.swap_fade.y.bits == 0
            &&& data.alpha == options.alpha
            &&& data.flags < 64
            &&& data.flags % 16 == 0 <==> mode == encode_utf8("spherical"@)
            &&& data.flags % 16 == 1 <==> mode == encode_utf8("hemispherical"@)
            &&& data.flags % 16 == 2 <==> mode == encode_utf8("Horizontal"@)
            &&& data.flags / 16 % 2 == 1 <==> options.multisample
            &&& data.flags / 32 % 2 == 1 <==> contents.contains_key("pixels.png"@)
        },
{
    if loaded_imposter(Some(contents), options, scale) is Ok {
        let settings = parsed_settings(fields(contents["settings.txt"@].unwrap()), scale)->Ok_0;
        let flags = ImposterFlags {
            mode: settings.mode.unwrap(),
            multisample: options.multisample,
            indexed: contents.contains_key("pixels.png"@),
            dither: false,
            coverage: false,
            fade: false,
        };
        assert(loaded_imposter(Some(contents), options, scale)->Ok_0.data.flags == flags.encoded());
        law_flags_are_bits(flags);
        lemma_modes_differ(GridMode::Spherical, GridMode::Hemispherical);
        lemma_modes_differ(GridMode::Spherical, GridMode::Horizontal);
        lemma_modes_differ(GridMode::Hemispherical, GridMode::Horizontal);
        encode_utf8_decode_utf8("spherical"@);
        encode_utf8_decode_utf8("hemispherical"@);
        encode_utf8_decode_utf8("Horizontal"@);
    }
}

/// Why nothing is loaded from what is no archive, or from an archive whose settings file is of no
/// use: it cannot be read, is not UTF-8 text, has fewer than eight fields, or has a field that
/// should be a number and is none, of which the first is named.
pub proof fn law_archive_without_settings(
    contents: Map<Seq<char>, Option<Seq<u8>>>,
    options: ImposterLoaderSettings,
    scale: Option<FloatBits>,
)
    ensures
        loaded_imposter(None, options, scale) == Err::<ImposterModel, _>(LoadFault::Archive),
        ({
            let r = loaded_imposter(Some(contents), options, scale);
            let text = contents["settings.txt"@].unwrap();
            let readable = contents.contains_key("settings.txt"@) && contents["settings.txt"@]
                is Some;
            let fault = r->Err_0;
            &&& r is Err && fault is NoSettings <==> !readable
            &&& !(r is Err && fault is Archive)
            &&& r is Err && fault is Settings ==> fault->text == text
            &&& r is Err && fault is Settings && fault->error is NotText <==> readable
                && !valid_utf8(text)
            &&& r is Err && fault is Settings && fault->error is BadFormat <==> readable
                && valid_utf8(text) && fields(text).len() < 8
            &&& forall|k: usize|
                r == Err::<ImposterModel, _>(
                    (LoadFault::Settings { error: SettingsError::BadNumber(k), text }),
                ) <==> {
                    &&& readable && valid_utf8(text) && 8 <= fields(text).len()
                    &&& #[trigger] is_bad_number(fields(text), scale, k as int)
                    &&& forall|j: int| 0 <= j < k ==> !#[trigger] is_bad_number(
                        fields(text),
                        scale,
                        j,
                    )
                }
        }),
{
    let text = contents["settings.txt"@].unwrap();
    assert forall|k: usize|
        bad_number(fields(text), scale) == Some(k) <==> {
            &&& #[trigger] is_bad_number(fields(text), scale, k as int)
            &&& forall|j: int| 0 <= j < k ==> !#[trigger] is_bad_number(fields(text), scale, j)
        } by {
        lemma_bad_number(fields(text), scale, k);
    }
}

/// The first field that is a bad number is the one that is named.
proof fn lemma_bad_number(parts: Seq<Seq<u8>>, scale: Option<FloatBits>, k: usize)
    ensures
        bad_number(parts, scale) == Some(k) <==> {
            &&& is_bad_number(parts, scale, k as int)
            &&& forall|j: int| 0 <= j < k ==> !#[trigger] is_bad_number(parts, scale, j)
        },
{
    let first = bad_number(parts, scale);
    if first is Some {
        assert(is_bad_number(parts, scale, first.unwrap() as int));
    }
    if is_bad_number(parts, scale, k as int) && (forall|j: int|
        0 <= j < k ==> !#[trigger] is_bad_number(parts, scale, j)) {
        assert(first is Some && first.unwrap() <= k);
    }
}

/// A field of a settings file should be a number and is none: the scale is the second, the mode is
/// the third, and the others of the first eight are whole numbers.
pub open spec fn is_bad_number(parts: Seq<Seq<u8>>, scale: Option<FloatBits>, k: int) -> bool {
    if k == 1 {
        scale is None
    } else {
        0 <= k < 8 && k != 2 && parsed_decimal(parts[k]) is None
    }
}

/// What is loaded from an archive without a picture of distinct pixels, whose settings file says
/// how many texels its picture has: eight bytes for each of them, row after row, or why nothing is
/// loaded.
pub proof fn law_direct_asset_loads(
    contents: Map<Seq<char>, Option<Seq<u8>>>,
    options: ImposterLoaderSettings,
    scale: FloatBits,
    layout: Layout,
    mode: Seq<u8>,
)
    requires
        file_says(contents, layout, mode),
        !contents.contains_key("pixels.png"@),
    ensures
        ({
            let r = loaded_imposter(Some(contents), options, Some(scale));
            let imposter = r->Ok_0;
            let fault = r->Err_0;
            let readable = contents.contains_key("texture.png"@) && contents["texture.png"@]
                is Some;
            let bytes = png_pixels(contents["texture.png"@].unwrap());
            let width = layout.packed_tile_size.x * layout.grid_size;
            let height = layout.packed_tile_size.y * layout.grid_size;
            let fits = width <= 0xffff_ffff && height <= 0xffff_ffff;
            let whole = fits && bytes.unwrap().len() == 8 * (width * height);
            let enough = 8 * (width * height) <= usize::MAX;
            &&& r is Err && fault is NoPicture <==> !readable
            &&& r is Err && fault is BadPicture <==> readable && bytes is None
            &&& r is Err && fault is TooLarge <==> readable && bytes is Some && (!fits || whole
                && !enough)
            &&& r is Err && fault is WrongSize <==> readable && bytes is Some && fits && !whole
            &&& r is Err && fault is BadMode <==> readable && bytes is Some && whole && enough
                && !is_mode_name(mode)
            &&& r is Err && fault is BadMode ==> fault->BadMode_0 == decode_utf8(mode)
            &&& r is Ok <==> readable && bytes is Some && whole && enough && is_mode_name(mode)
            &&& r is Ok ==> {
                &&& imposter.pixels.width == width
                &&& imposter.pixels.height == height
                &&& imposter.pixels.format == TexelFormat::Rg32Uint
                &&& bytes == Some(imposter.pixels.data)
                &&& imposter.indices.width == 1
                &&& imposter.indices.height == 1
                &&& imposter.indices.format == TexelFormat::R32Uint
                &&& imposter.indices.data == seq![0u8, 0u8, 0u8, 0u8]
                &&& imposter.vram_bytes == 8 * (width * height)
            }
        }),
{
}

/// What is loaded from an archive with a picture of distinct pixels: eight bytes for each of them,
/// in the smallest square without the rows that stay empty, which leaves no gap; and a picture of
/// places, each of two bytes where the block has fewer than 65536 and else of four, in rows of
/// whole words; or why nothing is loaded. `side` is the side of the square.
pub proof fn law_indexed_asset_loads(
    contents: Map<Seq<char>, Option<Seq<u8>>>,
    options: ImposterLoaderSettings,
    scale: FloatBits,
    layout: Layout,
    mode: Seq<u8>,
    side: int,
)
    requires
        file_says(contents, layout, mode),
        contents.contains_key("pixels.png"@),
        0 <= side,
        contents["pixels.png"@] matches Some(file) ==> (png_pixels(file) matches Some(bytes) ==> (
        bytes.len() <= 8 * (side * side) && (0 < side ==> 8 * ((side - 1) * (side - 1))
            < bytes.len()))),
    ensures
        ({
            let r = loaded_imposter(Some(contents), options, Some(scale));
            let imposter = r->Ok_0;
            let fault = r->Err_0;
            let readable = contents["pixels.png"@] is Some;
            let colors = png_pixels(contents["pixels.png"@].unwrap());
            let rows = if side == 0 {
                0
            } else {
                colors.unwrap().len() as int / (8 * side)
            };
            let full = readable && colors is Some && colors.unwrap().len() == 8 * (side * rows);
            let placed = contents.contains_key("indices.png"@) && contents["indices.png"@] is Some;
            let places = png_pixels(contents["indices.png"@].unwrap());
            let width = layout.packed_tile_size.x * layout.grid_size;
            let height = layout.packed_tile_size.y * layout.grid_size;
            let columns = if side * rows < 65536 {
                (width + 1) / 2
            } else {
                width
            };
            let fits = width <= 0xffff_ffff && height <= 0xffff_ffff;
            let whole = fits && places.unwrap().len() == 4 * (columns * height);
            let bytes = 8 * (side * rows) + 4 * (columns * height);
            let enough = bytes <= usize::MAX;
            &&& r is Err && fault is NoPicture <==> !readable || full && !placed
            &&& r is Err && fault is BadPicture <==> readable && colors is None || full && placed
                && places is None
            &&& r is Err && fault is TooLarge <==> full && placed && places is Some && (!fits
                || whole && !enough)
            &&& r is Err && fault is WrongSize <==> readable && colors is Some && !full || full
                && placed && places is Some && fits && !whole
            &&& r is Err && fault is BadMode <==> full && placed && places is Some && whole
                && enough && !is_mode_name(mode)
            &&& r is Err && fault is BadMode ==> fault->BadMode_0 == decode_utf8(mode)
            &&& r is Ok <==> full && placed && places is Some && whole && enough && is_mode_name(
                mode,
            )
            &&& r is Ok ==> {
                &&& imposter.pixels.width == side
                &&& imposter.pixels.height == rows
                &&& imposter.pixels.format == TexelFormat::Rg32Uint
                &&& colors == Some(imposter.pixels.data)
                &&& imposter.indices.width == columns
                &&& imposter.indices.height == height
                &&& imposter.indices.format == TexelFormat::R32Uint
                &&& places == Some(imposter.indices.data)
                &&& imposter.vram_bytes == bytes
            }
        }),
{
    if contents["pixels.png"@] is Some && png_pixels(contents["pixels.png"@].unwrap()) is Some {
        let bytes = png_pixels(contents["pixels.png"@].unwrap()).unwrap();
        let n = bytes.len() as int;
        assert(is_block_side(side, n));
        lemma_block_side_unique(side, block_side(n), n);
        lemma_block_rows(n, side);
        let rows = block_rows(n, side);
        if side > 0 {
            let row = 8 * side;
            let whole = n / row;
            lemma_fundamental_div_mod(n, row);
            assert(8 * (side * rows) == row * rows && 8 * (side * whole) == row * whole && 8 * (side
                * (rows - 1)) == row * (rows - 1)) by (nonlinear_arith)
                requires
                    row == 8 * side,
            ;
            let rest = n % row;
            if n == row * rows {
                assert(rows == whole) by (nonlinear_arith)
                    requires
                        0 < row,
                        row * rows == row * whole + rest,
                        0 <= rest < row,
                ;
            }
            if n == row * whole {
                assert(rows == whole) by (nonlinear_arith)
                    requires
                        0 < row,
                        row * (rows - 1) < row * whole <= row * rows,
                ;
            }
        }
    }
}

/// The archive of an asset, entry by entry.
pub proof fn law_archive_of_an_asset(
    contents: Map<Seq<char>, Option<Seq<u8>>>,
    images: AssetImages,
    settings: Seq<u8>,
    name: Seq<char>,
)
    requires
        holds_asset(contents, images, settings),
    ensures
        contents["settings.txt"@] == Some(settings),
        match images {
            AssetImages::Direct { texture } => {
                &&& contents.contains_key(name) <==> name == "settings.txt"@ || name
                    == "texture.png"@
                &&& contents["texture.png"@] == Some(
                    png_encoded(texture.width, texture.height, texture.data@),
                )
            },
            AssetImages::Indexed { pixels, indices } => {
                &&& contents.contains_key(name) <==> name == "settings.txt"@ || name
                    == "pixels.png"@ || name == "indices.png"@
                &&& contents["pixels.png"@] == Some(
                    png_encoded(pixels.width, pixels.height, pixels.data@),
                )
                &&& contents["indices.png"@] == Some(
                    png_encoded(indices.width, indices.height, indices.data@),
                )
            },
        },
{
    assert(contents.contains_key(name) == contents.dom().contains(name));
}

/// The scale of an asset is read from the second field of its settings file, where that is text of
/// eight fields or more, and nothing is read for a scale otherwise.
pub proof fn law_scale_is_the_second_field(contents: Map<Seq<char>, Option<Seq<u8>>>)
    ensures
        scale_text(None) is None,
        ({
            let text = contents["settings.txt"@].unwrap();
            if contents.contains_key("settings.txt"@) && contents["settings.txt"@] is Some
                && valid_utf8(text) && 8 <= fields(text).len() {
                scale_text(Some(contents)) == Some(fields(text)[1])
            } else {
                scale_text(Some(contents)) is None
            }
        }),
{
}

} // verus!
