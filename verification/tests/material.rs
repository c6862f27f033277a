use boimp::math::{FloatBits, UVec2, Vec3};
use boimp::oct_coords::GridMode;
use boimp::render::{
    dummy_indices, Imposter, ImposterData, ImposterFlags, ImposterKey, COVERAGE_FLAG,
    DETAIL_FADE_FLAG, DITHER_FLAG, INDEXED_FLAG, RENDER_MULTISAMPLE_FLAG,
};

fn float(value: f32) -> FloatBits {
    FloatBits { bits: value.to_bits() }
}

fn flags(mode: GridMode, bits: u32) -> ImposterFlags {
    ImposterFlags {
        mode,
        multisample: bits & 1 != 0,
        indexed: bits & 2 != 0,
        dither: bits & 4 != 0,
        coverage: bits & 8 != 0,
        fade: bits & 16 != 0,
    }
}

#[test]
fn every_flag_has_its_bit() {
    for mode in [GridMode::Spherical, GridMode::Hemispherical, GridMode::Horizontal] {
        for bits in 0..32 {
            let encoded = flags(mode, bits).encode();
            assert_eq!(encoded & 3, mode.as_flags());
            assert_eq!(encoded & RENDER_MULTISAMPLE_FLAG != 0, bits & 1 != 0);
            assert_eq!(encoded & INDEXED_FLAG != 0, bits & 2 != 0);
            assert_eq!(encoded & DITHER_FLAG != 0, bits & 4 != 0);
            assert_eq!(encoded & COVERAGE_FLAG != 0, bits & 8 != 0);
            assert_eq!(encoded & DETAIL_FADE_FLAG != 0, bits & 16 != 0);
        }
    }
    assert_eq!(flags(GridMode::Horizontal, 31).encode(), 2 + 16 + 32 + 64 + 128 + 256);
}

#[test]
fn data_takes_its_fields_over() {
    let data = ImposterData::new(
        Vec3 { x: float(1.0), y: float(2.0), z: float(3.0) },
        float(4.0),
        8,
        64,
        UVec2 { x: 5, y: 6 },
        UVec2 { x: 7, y: 8 },
        GridMode::Hemispherical,
        true,
        false,
        true,
        false,
        true,
        float(0.5),
    );
    assert_eq!(data.center_and_scale.x, float(1.0));
    assert_eq!(data.center_and_scale.z, float(3.0));
    assert_eq!(data.center_and_scale.w, float(4.0));
    assert_eq!((data.grid_size, data.base_tile_size), (8, 64));
    assert_eq!(data.packed_tile_offset, UVec2 { x: 5, y: 6 });
    assert_eq!(data.packed_tile_size, UVec2 { x: 7, y: 8 });
    assert_eq!(data.flags, 1 + 16 + 64 + 256);
    assert_eq!(data.alpha, float(0.5));
    assert_eq!((data.swap_fade.x, data.swap_fade.y), (float(0.0), float(0.0)));
}

#[test]
fn shaders_are_told_the_flags() {
    let mut vertex = vec!["FIRST"];
    let mut fragment = vec![];
    let key = ImposterKey(flags(GridMode::Spherical, 31).encode());
    Imposter::specialize(&mut vertex, &mut fragment, key);
    assert_eq!(vertex, vec!["FIRST", "GRID_SPHERICAL"]);
    assert_eq!(
        fragment,
        vec![
            "MATERIAL_MULTISAMPLE",
            "GRID_SPHERICAL",
            "INDEXED_PIXELS",
            "DITHERED",
            "COVERAGE_PRESERVE",
            "DETAIL_FADE",
        ]
    );
    for (mode, name) in [
        (GridMode::Hemispherical, "GRID_HEMISPHERICAL"),
        (GridMode::Horizontal, "GRID_HORIZONTAL"),
    ] {
        let mut vertex = vec![];
        let mut fragment = vec![];
        Imposter::specialize(&mut vertex, &mut fragment, ImposterKey(flags(mode, 0).encode()));
        assert_eq!(vertex, vec![name]);
        assert_eq!(fragment, vec![name]);
    }
}

#[test]
fn the_key_of_an_imposter_is_its_flags() {
    let data = ImposterData::new(
        Vec3 { x: float(0.0), y: float(0.0), z: float(0.0) },
        float(1.0),
        1,
        1,
        UVec2 { x: 0, y: 0 },
        UVec2 { x: 1, y: 1 },
        GridMode::Horizontal,
        false,
        true,
        false,
        false,
        false,
        float(1.0),
    );
    let imposter = Imposter {
        data,
        pixels: dummy_indices(),
        indices: dummy_indices(),
        alpha_mode: boimp::render::AlphaMode::Opaque,
        vram_bytes: 8,
    };
    assert_eq!(ImposterKey::from(&imposter), ImposterKey(34));
}

#[test]
fn a_key_holds_a_grid_mode_or_none() {
    for mode in [GridMode::Spherical, GridMode::Hemispherical, GridMode::Horizontal] {
        assert!(ImposterKey(flags(mode, 31).encode()).has_grid_mode());
    }
    assert!(!ImposterKey(3 + 64).has_grid_mode());
}
