use std::io::{Cursor, Read, Write};

use boimp::asset_loader::{
    alpha_mode, assemble, direct_texture, index_texture, palette_texture, plan_asset, write_asset,
    write_plan, AssetTextures, ImposterLoader, ImposterLoaderSettings, LoadError,
};
use boimp::atlas::Image;
use boimp::indexed::AssetImages;
use boimp::math::{FloatBits, UVec2};
use boimp::oct_coords::GridMode;
use boimp::render::{
    AlphaMode, Imposter, TexelFormat, INDEXED_FLAG, RENDER_MULTISAMPLE_FLAG,
};
use boimp::settings::{AssetSettings, Layout, SettingsError};

fn float(value: f32) -> FloatBits {
    FloatBits { bits: value.to_bits() }
}

fn parse(text: &str) -> Option<FloatBits> {
    text.parse::<f32>().ok().map(float)
}

fn load(bytes: Vec<u8>) -> Result<Imposter, LoadError> {
    ImposterLoader.load(bytes, &ImposterLoaderSettings::default(), parse)
}

/// An atlas of two by two tiles of four pixels, with few different pixels.
fn atlas() -> Image {
    let mut data = vec![0; 8 * 64];
    for tile in 0..4usize {
        for k in 0..4usize {
            let x = tile % 2 * 4 + 1 + k % 2;
            let y = tile / 2 * 4 + 1 + k / 2;
            let at = 8 * (y * 8 + x);
            data[at] = 200;
            data[at + 5] = (tile + k) as u8 % 3;
        }
    }
    Image { width: 8, height: 8, data }
}

fn entries(bytes: &[u8]) -> Vec<(String, Vec<u8>)> {
    let mut archive = zip::ZipArchive::new(Cursor::new(bytes)).unwrap();
    let mut r = vec![];
    for i in 0..archive.len() {
        let mut file = archive.by_index(i).unwrap();
        let mut content = vec![];
        file.read_to_end(&mut content).unwrap();
        r.push((file.name().to_owned(), content));
    }
    r
}

fn archive(entries: &[(&str, Vec<u8>)]) -> Vec<u8> {
    let mut writer = zip::ZipWriter::new(Cursor::new(vec![]));
    for (name, content) in entries {
        writer.start_file(*name, zip::write::SimpleFileOptions::default()).unwrap();
        writer.write_all(content).unwrap();
    }
    writer.finish().unwrap().into_inner()
}

fn png(width: u32, height: u32, data: Vec<u8>) -> Vec<u8> {
    let buffer: image::RgbaImage = image::ImageBuffer::from_raw(width, height, data).unwrap();
    let mut cursor = Cursor::new(vec![]);
    image::DynamicImage::ImageRgba8(buffer).write_to(&mut cursor, image::ImageFormat::Png).unwrap();
    cursor.into_inner()
}

fn settings(text: &str) -> (&'static str, Vec<u8>) {
    ("settings.txt", text.as_bytes().to_vec())
}

#[test]
fn an_asset_that_is_neither_packed_nor_indexed_holds_its_image() {
    let image = atlas();
    let data = image.data.clone();
    let bytes = write_asset("1.5", 2, 4, GridMode::Spherical, image, false, false).unwrap();
    let entries = entries(&bytes);
    assert_eq!(entries.len(), 2);
    assert_eq!(entries[0].0, "texture.png");
    assert_eq!(entries[1].0, "settings.txt");
    assert_eq!(entries[1].1, b"2 1.5 spherical 4 0 0 4 4");
    let decoded = image::load_from_memory(&entries[0].1).unwrap();
    assert_eq!((decoded.width(), decoded.height()), (16, 8));
    assert_eq!(decoded.into_bytes(), data);

    let imposter = load(bytes).unwrap();
    assert_eq!((imposter.pixels.width, imposter.pixels.height), (8, 8));
    assert_eq!(imposter.pixels.format, TexelFormat::Rg32Uint);
    assert_eq!(imposter.pixels.data, data);
    assert_eq!((imposter.indices.width, imposter.indices.height), (1, 1));
    assert_eq!(imposter.indices.format, TexelFormat::R32Uint);
    assert_eq!(imposter.indices.data, vec![0; 4]);
    assert_eq!(imposter.vram_bytes, 512);
    assert_eq!(imposter.data.grid_size, 2);
    assert_eq!(imposter.data.base_tile_size, 4);
    assert_eq!(imposter.data.packed_tile_offset, UVec2 { x: 0, y: 0 });
    assert_eq!(imposter.data.packed_tile_size, UVec2 { x: 4, y: 4 });
    assert_eq!(imposter.data.flags, GridMode::Spherical.as_flags());
    assert_eq!(imposter.data.center_and_scale.w, float(1.5));
    assert_eq!(imposter.data.center_and_scale.x, float(0.0));
    assert_eq!(imposter.data.alpha, float(1.0));
    assert_eq!(imposter.data.swap_fade.x, float(0.0));
    assert_eq!(imposter.alpha_mode, AlphaMode::Blend);
}

#[test]
fn a_packed_and_indexed_asset_shows_every_pixel() {
    let image = atlas();
    let given = image.data.clone();
    let bytes = write_asset("3", 2, 4, GridMode::Horizontal, image, true, true).unwrap();
    let entries = entries(&bytes);
    assert_eq!(entries.len(), 3);
    assert_eq!(entries[0].0, "pixels.png");
    assert_eq!(entries[1].0, "indices.png");
    assert_eq!(entries[2].0, "settings.txt");
    assert_eq!(entries[2].1, b"2 3 Horizontal 4 1 1 2 2");

    let imposter = load(bytes).unwrap();
    assert_eq!(imposter.data.flags, GridMode::Horizontal.as_flags() + INDEXED_FLAG);
    assert_eq!(imposter.data.packed_tile_offset, UVec2 { x: 1, y: 1 });
    assert_eq!(imposter.data.packed_tile_size, UVec2 { x: 2, y: 2 });
    // Three different pixels in a block of two by two, and two bytes for each of sixteen pixels.
    assert_eq!((imposter.pixels.width, imposter.pixels.height), (2, 2));
    assert_eq!((imposter.indices.width, imposter.indices.height), (2, 4));
    assert_eq!(imposter.vram_bytes, 32 + 32);
    for y in 0..4usize {
        for x in 0..4usize {
            let at = 8 * y + 2 * x;
            let place = imposter.indices.data[at] as usize;
            let source = 8 * ((y / 2 * 4 + 1 + y % 2) * 8 + x / 2 * 4 + 1 + x % 2);
            assert_eq!(imposter.pixels.data[8 * place..8 * place + 8], given[source..source + 8]);
        }
    }
}

#[test]
fn an_asset_that_gains_nothing_is_not_indexed() {
    let data: Vec<u8> = (0..128u8).map(|k| k + 1).collect();
    let image = Image { width: 4, height: 4, data: data.clone() };
    let bytes = write_asset("1", 1, 4, GridMode::Hemispherical, image, false, true).unwrap();
    assert_eq!(entries(&bytes)[0].0, "texture.png");
    assert_eq!(load(bytes).unwrap().pixels.data, data);
}

#[test]
fn user_settings_reach_the_imposter() {
    let bytes = write_asset("1", 2, 4, GridMode::Hemispherical, atlas(), true, true).unwrap();
    let options = ImposterLoaderSettings {
        multisample: true,
        alpha: float(0.5),
        alpha_blend: float(0.25),
    };
    let imposter = ImposterLoader.load(bytes, &options, parse).unwrap();
    assert_eq!(imposter.data.alpha, float(0.5));
    assert_eq!(imposter.alpha_mode, AlphaMode::Mask(float(0.25)));
    assert_eq!(
        imposter.data.flags,
        GridMode::Hemispherical.as_flags() + INDEXED_FLAG + RENDER_MULTISAMPLE_FLAG
    );
}

#[test]
fn alpha_is_blended_opaque_or_masked() {
    assert_eq!(alpha_mode(float(0.0)), AlphaMode::Blend);
    assert_eq!(alpha_mode(float(-0.0)), AlphaMode::Blend);
    assert_eq!(alpha_mode(float(1.0)), AlphaMode::Opaque);
    assert_eq!(alpha_mode(float(0.5)), AlphaMode::Mask(float(0.5)));
    let defaults = ImposterLoaderSettings::default();
    assert!(!defaults.multisample);
    assert_eq!(defaults.alpha, float(1.0));
    assert_eq!(defaults.alpha_blend, float(0.0));
}

#[test]
fn the_loader_reads_files_of_one_extension() {
    assert_eq!(ImposterLoader.extensions(), vec!["boimp"]);
}

/// The error of an asset whose settings file is `text`, which the error must hold.
fn settings_error(entries: &[(&str, Vec<u8>)], text: &[u8]) -> SettingsError {
    match load(archive(entries)).unwrap_err() {
        LoadError::Settings { error, text: held } => {
            assert_eq!(held, text);
            error
        }
        other => panic!("{other:?}"),
    }
}

#[test]
fn broken_assets_are_refused() {
    let texture = || ("texture.png", png(2, 1, vec![7; 8]));
    assert!(matches!(load(vec![1, 2, 3]), Err(LoadError::Archive(_))));
    assert!(matches!(
        load(archive(&[texture()])),
        Err(LoadError::NoSettings(zip::result::ZipError::FileNotFound))
    ));
    let bad_text = ("settings.txt", vec![0xc0, 0x20]);
    assert_eq!(settings_error(&[texture(), bad_text], &[0xc0, 0x20]), SettingsError::NotText);
    for (text, error) in [
        ("1 2 spherical", SettingsError::BadFormat),
        ("1 x spherical 1 0 0 1 1", SettingsError::BadNumber(1)),
        ("1 1 spherical 1 0 0 1 -1", SettingsError::BadNumber(7)),
        ("y x spherical 1 0 0 1 -1", SettingsError::BadNumber(0)),
    ] {
        assert_eq!(settings_error(&[texture(), settings(text)], text.as_bytes()), error);
    }
    assert!(matches!(
        load(archive(&[settings("1 1 spherical 1 0 0 1 1")])),
        Err(LoadError::NoPicture(zip::result::ZipError::FileNotFound))
    ));
    assert!(matches!(
        load(archive(&[("texture.png", vec![1]), settings("1 1 spherical 1 0 0 1 1")])),
        Err(LoadError::BadPicture(_))
    ));
    assert!(matches!(
        load(archive(&[texture(), settings("1 1 spherical 1 0 0 2 1")])),
        Err(LoadError::WrongSize)
    ));
    assert!(matches!(
        load(archive(&[texture(), settings("4294967295 1 spherical 1 0 0 2 1")])),
        Err(LoadError::TooLarge)
    ));
    match load(archive(&[texture(), settings("1 1 cubic 1 0 0 1 1")])).unwrap_err() {
        LoadError::BadMode(mode) => assert_eq!(mode, "cubic"),
        other => panic!("{other:?}"),
    }
    assert!(load(archive(&[texture(), settings("1 1 spherical 1 0 0 1 1")])).is_ok());
}

#[test]
fn an_indexed_asset_needs_its_places() {
    let pixels = || ("pixels.png", png(2, 1, vec![7; 8]));
    let fine = settings("1 1 spherical 1 0 0 1 1");
    assert!(matches!(
        load(archive(&[pixels(), fine.clone()])),
        Err(LoadError::NoPicture(zip::result::ZipError::FileNotFound))
    ));
    let odd = ("pixels.png", png(3, 1, vec![7; 12]));
    assert!(matches!(load(archive(&[odd, fine.clone()])), Err(LoadError::WrongSize)));
    let long = ("indices.png", png(2, 1, vec![0; 8]));
    assert!(matches!(load(archive(&[pixels(), long, fine.clone()])), Err(LoadError::WrongSize)));
    let places = ("indices.png", png(1, 1, vec![0; 4]));
    let imposter = load(archive(&[pixels(), places, fine])).unwrap();
    assert_eq!(imposter.pixels.data, vec![7; 8]);
    assert_eq!(imposter.vram_bytes, 12);
}

#[test]
fn the_picture_of_distinct_pixels_decides_over_a_texture() {
    let texture = ("texture.png", png(2, 1, vec![7; 8]));
    let pixels = ("pixels.png", vec![]);
    let fine = settings("1 1 spherical 1 0 0 1 1");
    assert!(matches!(load(archive(&[texture, pixels, fine])), Err(LoadError::BadPicture(_))));
}

fn picture(file: &[u8]) -> (u32, u32, Vec<u8>) {
    let decoded = image::load_from_memory(file).unwrap();
    assert_eq!(decoded.color(), image::ColorType::Rgba8);
    (decoded.width(), decoded.height(), decoded.into_bytes())
}

#[test]
fn a_blank_image_is_written_as_it_is() {
    let image = Image { width: 2, height: 2, data: vec![0; 32] };
    let bytes = write_asset("1.5", 2, 1, GridMode::Hemispherical, image, false, false).unwrap();
    let entries = entries(&bytes);
    assert_eq!(entries.len(), 2);
    assert_eq!(entries[0].0, "texture.png");
    assert_eq!(picture(&entries[0].1), (4, 2, vec![0; 32]));
    assert_eq!(entries[1].0, "settings.txt");
    assert_eq!(entries[1].1, b"2 1.5 hemispherical 1 0 0 1 1");
}

#[test]
fn an_indexed_asset_holds_its_pixels_and_places() {
    let (a, b, c) = ([1u8; 8], [2u8; 8], [3u8; 8]);
    let data = [a, b, c, a, a, a, c, b, a].concat();
    let image = Image { width: 3, height: 3, data };
    let bytes = write_asset("1", 1, 3, GridMode::Spherical, image, false, true).unwrap();
    let entries = entries(&bytes);
    assert_eq!(entries.len(), 3);
    assert_eq!(entries[0].0, "pixels.png");
    assert_eq!(picture(&entries[0].1), (4, 2, [a, b, c, [0; 8]].concat()));
    assert_eq!(entries[1].0, "indices.png");
    let places = vec![0, 0, 1, 0, 2, 0, 0, 0, 0, 0, 0, 0, 0, 0, 0, 0, 2, 0, 1, 0, 0, 0, 0, 0];
    assert_eq!(picture(&entries[1].1), (2, 3, places));
    assert_eq!(entries[2].0, "settings.txt");
    assert_eq!(entries[2].1, b"1 1 spherical 3 0 0 3 3");
}

#[test]
fn a_packed_image_is_indexed_only_where_that_saves_bytes() {
    let (one, two) = ([1u8, 0, 0, 0, 1, 0, 0, 0], [2u8, 0, 0, 0, 2, 0, 0, 0]);
    let blank = [0u8; 8];
    let data = [one, blank, blank, two, blank, blank, one, blank, blank].concat();
    let image = Image { width: 3, height: 3, data };
    let bytes = write_asset("1", 1, 3, GridMode::Spherical, image, true, true).unwrap();
    let entries = entries(&bytes);
    assert_eq!(entries.len(), 2);
    // Indexed, the two different pixels and three places would take 28 bytes, not 24.
    assert_eq!(entries[0].0, "texture.png");
    assert_eq!(picture(&entries[0].1), (2, 3, [one, two, one].concat()));
    assert_eq!(entries[1].0, "settings.txt");
    assert_eq!(entries[1].1, b"1 1 spherical 3 0 0 1 3");
}

#[test]
fn one_image_is_written_in_one_form() {
    let plan = || plan_asset("1", 2, 4, GridMode::Spherical, atlas(), true, true).unwrap();
    let first = entries(&write_plan(plan()).unwrap());
    assert_eq!(first, entries(&write_plan(plan()).unwrap()));
    let bytes = write_asset("1", 2, 4, GridMode::Spherical, atlas(), true, true).unwrap();
    assert_eq!(first, entries(&bytes));
}

#[test]
fn pictures_are_read_in_any_depth() {
    // Two pixels of sixteen bits a channel are as many bytes as a two-word pixel each.
    let buffer: image::ImageBuffer<image::Rgba<u16>, Vec<u16>> =
        image::ImageBuffer::from_raw(1, 1, vec![0x0102, 0x0304, 0x0506, 0x0708]).unwrap();
    let mut cursor = Cursor::new(vec![]);
    image::DynamicImage::ImageRgba16(buffer)
        .write_to(&mut cursor, image::ImageFormat::Png)
        .unwrap();
    let texture = ("texture.png", cursor.into_inner());
    let imposter = load(archive(&[texture, settings("1 1 spherical 1 0 0 1 1")])).unwrap();
    let mut expected = vec![];
    for channel in [0x0102u16, 0x0304, 0x0506, 0x0708] {
        expected.extend_from_slice(&channel.to_ne_bytes());
    }
    assert_eq!(imposter.pixels.data, expected);
}

#[test]
fn a_plan_says_what_is_kept() {
    let plan = plan_asset("1", 2, 4, GridMode::Spherical, atlas(), true, false).unwrap();
    assert_eq!(plan.layout.packed_tile_offset, UVec2 { x: 1, y: 1 });
    assert_eq!(plan.layout.packed_tile_size, UVec2 { x: 2, y: 2 });
    assert_eq!(plan.settings, b"2 1 spherical 4 1 1 2 2");
    match &plan.images {
        AssetImages::Direct { texture } => assert_eq!((texture.width, texture.height), (8, 4)),
        AssetImages::Indexed { .. } => panic!("indexed"),
    }
    assert_eq!(entries(&write_plan(plan).unwrap()).len(), 2);
}

#[test]
fn textures_are_held_to_their_size() {
    let layout = Layout {
        grid_size: 3,
        base_tile_size: 9,
        packed_tile_offset: UVec2 { x: 0, y: 0 },
        packed_tile_size: UVec2 { x: 1, y: 2 },
    };
    let direct = direct_texture(&layout, vec![0; 8 * 18]).unwrap();
    assert_eq!((direct.width, direct.height), (3, 6));
    assert!(matches!(direct_texture(&layout, vec![0; 8 * 17]), Err(LoadError::WrongSize)));
    let palette = palette_texture(vec![0; 8 * 6]).unwrap();
    assert_eq!((palette.width, palette.height), (3, 2));
    assert!(matches!(palette_texture(vec![0; 8 * 5]), Err(LoadError::WrongSize)));
    assert!(matches!(palette_texture(vec![0; 9]), Err(LoadError::WrongSize)));
    let indices = index_texture(&layout, &palette, vec![0; 4 * 2 * 6]).unwrap();
    assert_eq!((indices.width, indices.height), (2, 6));
    let wide = palette_texture(vec![0; 8 * 65536]).unwrap();
    let indices = index_texture(&layout, &wide, vec![0; 4 * 3 * 6]).unwrap();
    assert_eq!((indices.width, indices.height), (3, 6));
    let settings = AssetSettings { layout, scale: float(1.0), mode: None };
    let textures = AssetTextures::Indexed { pixels: wide, indices };
    let options = ImposterLoaderSettings::default();
    match assemble(&settings, "flat", &options, textures).unwrap_err() {
        LoadError::BadMode(mode) => assert_eq!(mode, "flat"),
        other => panic!("{other:?}"),
    }
}

#[test]
fn a_scale_is_read_by_the_parser_that_is_given() {
    let texture = ("texture.png", png(2, 1, vec![7; 8]));
    let bytes = archive(&[texture, settings("1 one spherical 1 0 0 1 1")]);
    let options = ImposterLoaderSettings::default();
    let named = |text: &str| if text == "one" { Some(float(1.0)) } else { None };
    let imposter = ImposterLoader.load(bytes, &options, named).unwrap();
    assert_eq!(imposter.data.center_and_scale.w, float(1.0));
}
