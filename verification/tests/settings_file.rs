use boimp::math::{FloatBits, UVec2};
use boimp::oct_coords::{GridMode, GRID_MASK};
use boimp::settings::{
    join, parse_decimal, parse_mode, parse_settings, push_decimal, same_text, settings_fields,
    split_fields, write_settings, AssetSettings, Layout, SettingsError,
};

fn bytes(text: &str) -> Vec<u8> {
    text.as_bytes().to_vec()
}

fn layout() -> Layout {
    Layout {
        grid_size: 12,
        base_tile_size: 128,
        packed_tile_offset: UVec2 { x: 3, y: 0 },
        packed_tile_size: UVec2 { x: 100, y: 77 },
    }
}

#[test]
fn numbers_are_written_in_decimal() {
    for n in [0, 7, 10, 99, 100, 4_294_967_295u32] {
        let mut out = bytes("n=");
        push_decimal(&mut out, n);
        assert_eq!(out, bytes(&format!("n={n}")));
        assert_eq!(parse_decimal(&out[2..].to_vec()), Some(n));
    }
}

#[test]
fn numbers_are_read_as_the_standard_library_reads_them() {
    let cases = [
        "", "+", "-", "0", "00", "+5", "-5", "-0", "007", "4294967295", "4294967296", "99999999999",
        "12a", " 1", "1 ", "++1", "+-1", "1.0", "0x10", "42949672960000000000000000000000000000000",
    ];
    for text in cases {
        assert_eq!(parse_decimal(&bytes(text)), text.parse::<u32>().ok(), "{text:?}");
    }
}

#[test]
fn fields_are_split_at_every_space() {
    for text in ["", " ", "a", "a b", " a", "a ", "a  b", "one two three "] {
        let expected: Vec<Vec<u8>> = text.split(' ').map(bytes).collect();
        let fields = split_fields(&bytes(text));
        assert_eq!(fields, expected);
        assert_eq!(join(&fields), bytes(text));
    }
}

#[test]
fn settings_are_written_in_order() {
    let text = write_settings(&layout(), "1.5", GridMode::Hemispherical);
    assert_eq!(text, bytes("12 1.5 hemispherical 128 3 0 100 77"));
    let text = write_settings(&layout(), "-inf", GridMode::Spherical);
    assert_eq!(text, bytes("12 -inf spherical 128 3 0 100 77"));
    let text = write_settings(&layout(), "0", GridMode::Horizontal);
    assert_eq!(text, bytes("12 0 Horizontal 128 3 0 100 77"));
}

#[test]
fn written_settings_are_read_back() {
    for mode in [GridMode::Spherical, GridMode::Hemispherical, GridMode::Horizontal] {
        let text = write_settings(&layout(), "2.25", mode);
        let fields = settings_fields(&text).unwrap();
        assert_eq!(fields[1], bytes("2.25"));
        let scale = FloatBits { bits: 2.25f32.to_bits() };
        assert_eq!(
            parse_settings(&fields, Some(scale)),
            Ok(AssetSettings { layout: layout(), scale, mode: Some(mode) })
        );
    }
}

#[test]
fn settings_with_faults_are_refused() {
    assert_eq!(settings_fields(&vec![0x31, 0xff, 0x20]), Err(SettingsError::NotText));
    assert_eq!(settings_fields(&bytes("1 2 3 4 5 6 7")), Err(SettingsError::BadFormat));
    assert_eq!(settings_fields(&bytes("")), Err(SettingsError::BadFormat));
    let one = Some(FloatBits { bits: 1 });
    let good = settings_fields(&bytes("1 2 spherical 4 5 6 7 8")).unwrap();
    assert!(parse_settings(&good, one).is_ok());
    assert_eq!(parse_settings(&good, None), Err(SettingsError::BadNumber(1)));
    for k in [0, 3, 4, 5, 6, 7] {
        let mut bad = good.clone();
        bad[k] = bytes("x");
        assert_eq!(parse_settings(&bad, one), Err(SettingsError::BadNumber(k)));
    }
    // The first field that is no number is named.
    let worse = settings_fields(&bytes("1 2 spherical 4 5 -6 x 8")).unwrap();
    assert_eq!(parse_settings(&worse, one), Err(SettingsError::BadNumber(5)));
    assert_eq!(parse_settings(&worse, None), Err(SettingsError::BadNumber(1)));
}

#[test]
fn more_fields_are_passed_over() {
    let fields = settings_fields(&bytes("1 2 spherical 4 5 6 7 8 more")).unwrap();
    assert_eq!(fields.len(), 9);
    let settings = parse_settings(&fields, Some(FloatBits { bits: 0 })).unwrap();
    assert_eq!(settings.layout.packed_tile_size, UVec2 { x: 7, y: 8 });
}

#[test]
fn a_mode_that_is_not_known_is_left_open() {
    let fields = settings_fields(&bytes("1 2 horizontal 4 5 6 7 8")).unwrap();
    assert_eq!(parse_settings(&fields, Some(FloatBits { bits: 0 })).unwrap().mode, None);
    assert_eq!(parse_mode(&bytes("Horizontal")), Some(GridMode::Horizontal));
    assert_eq!(parse_mode(&bytes("Spherical")), None);
    assert_eq!(parse_mode(&bytes("")), None);
}

#[test]
fn text_in_other_scripts_is_text() {
    let fields = settings_fields(&bytes("1 \u{e9}\u{4e2d} 3 4 5 6 7 8")).unwrap();
    assert_eq!(fields[1], bytes("\u{e9}\u{4e2d}"));
    assert!(same_text("\u{e9}", "\u{e9}"));
    assert!(!same_text("\u{e9}", "e"));
    assert!(!same_text("ab", "abc"));
}

#[test]
fn modes_have_numbers_under_the_mask() {
    let modes = [GridMode::Spherical, GridMode::Hemispherical, GridMode::Horizontal];
    for a in modes {
        assert_eq!(a.as_flags() & !GRID_MASK, 0);
        for b in modes {
            assert_eq!(a == b, a.as_flags() == b.as_flags());
            assert_eq!(a == b, a.as_name() == b.as_name());
        }
    }
}
