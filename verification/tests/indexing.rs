use boimp::atlas::Image;
use boimp::indexed::{can_store, find_block_rows, find_block_side, plan_images, AssetImages};
use boimp::palette::{palette, places, push_key, read_keys};

fn image(width: u32, height: u32, pixels: &[[u8; 8]]) -> Image {
    let mut data = vec![];
    for pixel in pixels {
        data.extend_from_slice(pixel);
    }
    Image { width, height, data }
}

const A: [u8; 8] = [0, 0, 0, 0, 0, 0, 0, 1];
const B: [u8; 8] = [0, 0, 0, 0, 0, 0, 1, 0];
const C: [u8; 8] = [9, 8, 7, 6, 5, 4, 3, 2];

#[test]
fn keys_are_the_bytes_in_order() {
    let mut data = vec![];
    data.extend_from_slice(&C);
    data.extend_from_slice(&A);
    let keys = read_keys(&data);
    assert_eq!(keys, vec![0x0908_0706_0504_0302, 1]);
    let mut back = vec![];
    push_key(&mut back, keys[0]);
    push_key(&mut back, keys[1]);
    assert_eq!(back, data);
    // Bytes after the last whole pixel are passed over.
    data.push(77);
    assert_eq!(read_keys(&data).len(), 2);
}

#[test]
fn a_palette_is_sorted_and_without_repeats() {
    let keys = vec![5, 3, 5, 9, 3, 0];
    let colors = palette(&keys);
    assert_eq!(colors, vec![0, 3, 5, 9]);
    let lookup = places(&colors);
    assert_eq!(lookup.get(&5), Some(&2));
    assert_eq!(lookup.get(&4), None);
    assert_eq!(palette(&vec![]), Vec::<u64>::new());
}

#[test]
fn blocks_are_nearly_square() {
    let cases: [(usize, u32, u32); 8] = [
        (0, 0, 0),
        (1, 1, 1),
        (8, 1, 1),
        (9, 2, 1),
        (8 * 3, 2, 2),
        (8 * 5, 3, 2),
        (8 * 65536, 256, 256),
        (8 * 65537, 257, 256),
    ];
    for (bytes, side, rows) in cases {
        assert_eq!(find_block_side(bytes), side);
        assert_eq!(find_block_rows(bytes, side), rows);
    }
}

#[test]
fn blocks_agree_with_rounded_square_roots() {
    for count in 1..3000usize {
        let side = (count as f32).sqrt().ceil() as u32;
        let rows = (count as f32 / side as f32).ceil() as u32;
        assert_eq!(find_block_side(8 * count), side);
        assert_eq!(find_block_rows(8 * count, side), rows);
    }
}

#[test]
fn not_indexed_unless_asked_for() {
    let given = image(4, 1, &[A, A, A, A]);
    let data = given.data.clone();
    match plan_images(given, false) {
        AssetImages::Direct { texture } => {
            assert_eq!((texture.width, texture.height), (8, 1));
            assert_eq!(texture.data, data);
        }
        AssetImages::Indexed { .. } => panic!("indexed"),
    }
}

#[test]
fn not_indexed_where_it_saves_nothing() {
    // One place of eight bytes and two bytes for each of two pixels: 12 of 16 bytes.
    assert!(matches!(plan_images(image(2, 1, &[A, A]), true), AssetImages::Indexed { .. }));
    // One pixel: 10 bytes for 8.
    assert!(matches!(plan_images(image(1, 1, &[A]), true), AssetImages::Direct { .. }));
    // Filled rows count whole: 16 + 12 bytes for 24, where the places alone would take 6.
    assert!(matches!(plan_images(image(1, 3, &[A, B, A]), true), AssetImages::Direct { .. }));
    // Two different pixels: 16 + 4 bytes for 16.
    assert!(matches!(plan_images(image(2, 1, &[A, B]), true), AssetImages::Direct { .. }));
}

#[test]
fn narrow_places_fill_rows_of_odd_width() {
    let given = image(3, 3, &[A, B, C, A, A, A, C, B, A]);
    match plan_images(given, true) {
        AssetImages::Indexed { pixels, indices } => {
            assert_eq!((pixels.width, pixels.height), (4, 2));
            let mut expected = vec![];
            expected.extend_from_slice(&A);
            expected.extend_from_slice(&B);
            expected.extend_from_slice(&C);
            expected.extend_from_slice(&[0; 8]);
            assert_eq!(pixels.data, expected);
            assert_eq!((indices.width, indices.height), (2, 3));
            let first = [0, 0, 1, 0, 2, 0, 0, 0];
            let second = [0, 0, 0, 0, 0, 0, 0, 0];
            let third = [2, 0, 1, 0, 0, 0, 0, 0];
            assert_eq!(indices.data, [first, second, third].concat());
        }
        AssetImages::Direct { .. } => panic!("not indexed"),
    }
}

#[test]
fn narrow_places_need_no_filling_in_rows_of_even_width() {
    let given = image(4, 1, &[B, A, A, B]);
    match plan_images(given, true) {
        AssetImages::Indexed { pixels, indices } => {
            assert_eq!((pixels.width, pixels.height), (4, 1));
            assert_eq!((indices.width, indices.height), (2, 1));
            assert_eq!(indices.data, vec![1, 0, 0, 0, 0, 0, 1, 0]);
        }
        AssetImages::Direct { .. } => panic!("not indexed"),
    }
}

#[test]
fn many_different_pixels_take_wide_places() {
    // A block of 256 by 256 places is one too many for two bytes. 65281 pixels need such a block.
    let different: u32 = 65281;
    let width: u32 = 65281;
    let height: u32 = 3;
    let mut data = vec![];
    for _ in 0..height {
        for k in 0..width {
            data.extend_from_slice(&((k % different) as u64).to_be_bytes());
        }
    }
    match plan_images(Image { width, height, data }, true) {
        AssetImages::Indexed { pixels, indices } => {
            assert_eq!((pixels.width, pixels.height), (512, 256));
            assert_eq!((indices.width, indices.height), (width, height));
            assert_eq!(indices.data[4 * 65280..4 * 65280 + 4], [0, 255, 0, 0]);
            assert_eq!(indices.data[4 * 65281..4 * 65281 + 8], [0, 0, 0, 0, 1, 0, 0, 0]);
        }
        AssetImages::Direct { .. } => panic!("not indexed"),
    }
}

#[test]
fn indexing_saves_bytes() {
    for width in 1..9u32 {
        for height in 1..9u32 {
            let pixels = vec![C; (width * height) as usize];
            let given = image(width, height, &pixels);
            let before = given.data.len();
            if let AssetImages::Indexed { pixels, indices } = plan_images(given, true) {
                assert!(pixels.data.len() + indices.data.len() < before);
            }
        }
    }
}

#[test]
fn looking_places_up_gives_the_image_back() {
    let mut pixels = vec![];
    for k in 0..35u8 {
        pixels.push([k % 4, 0, k % 3, 0, 1, 0, 0, 2]);
    }
    let given = image(7, 5, &pixels);
    let data = given.data.clone();
    match plan_images(given, true) {
        AssetImages::Indexed { pixels, indices } => {
            for y in 0..5usize {
                for x in 0..7usize {
                    let at = 4 * (y * indices.width as usize) + 2 * x;
                    let place = indices.data[at] as usize + 256 * indices.data[at + 1] as usize;
                    let start = 8 * (y * 7 + x);
                    assert_eq!(pixels.data[8 * place..8 * place + 8], data[start..start + 8]);
                }
            }
        }
        AssetImages::Direct { .. } => panic!("not indexed"),
    }
}

#[test]
fn images_are_stored_up_to_a_size() {
    assert!(can_store(8192, 8192, true));
    assert!(can_store(0x1fff_ffff, 1, false));
    assert!(!can_store(0x2000_0000, 1, false));
    assert!(can_store(1, 0xffff_ffff, false));
    assert!(can_store(1, 0x1fff_ffff, true));
    assert!(!can_store(1, 0x2000_0000, true));
}
