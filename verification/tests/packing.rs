use boimp::atlas::Image;
use boimp::math::UVec2;
use boimp::pack::{can_pack, pack_asset};

fn blank(width: u32, height: u32) -> Image {
    Image { width, height, data: vec![0; 8 * (width * height) as usize] }
}

fn mark(image: &mut Image, x: u32, y: u32, pixel: [u8; 8]) {
    let at = 8 * (y * image.width + x) as usize;
    image.data[at..at + 8].copy_from_slice(&pixel);
}

fn pixel(image: &Image, x: u32, y: u32) -> [u8; 8] {
    let at = 8 * (y * image.width + x) as usize;
    let mut r = [0; 8];
    r.copy_from_slice(&image.data[at..at + 8]);
    r
}

#[test]
fn keeps_the_least_window_of_all_tiles() {
    // Two by two tiles of four pixels. The marks stand in columns 1 and 2, and in row 2.
    let mut image = blank(8, 8);
    mark(&mut image, 1, 2, [1, 0, 0, 0, 9, 9, 9, 9]);
    mark(&mut image, 6, 6, [0, 0, 0, 7, 5, 5, 5, 5]);
    let (packed, offset, size) = pack_asset(2, &image);
    assert_eq!(offset, UVec2 { x: 1, y: 2 });
    assert_eq!(size, UVec2 { x: 2, y: 1 });
    assert_eq!((packed.width, packed.height), (4, 2));
    assert_eq!(packed.data.len(), 8 * 8);
    assert_eq!(pixel(&packed, 0, 0), [1, 0, 0, 0, 9, 9, 9, 9]);
    assert_eq!(pixel(&packed, 3, 1), [0, 0, 0, 7, 5, 5, 5, 5]);
    assert_eq!(pixel(&packed, 1, 0), [0; 8]);
    assert_eq!(pixel(&packed, 2, 1), [0; 8]);
}

#[test]
fn every_marked_pixel_stays_in_its_tile() {
    let grid = 3;
    let tile = 5;
    let mut image = blank(grid * tile, grid * tile);
    let mut marks = vec![];
    for k in 0..7u32 {
        let x = (k * 11 + 2) % (grid * tile);
        let y = (k * 4 + 1) % (grid * tile);
        mark(&mut image, x, y, [k as u8 + 1, 1, 2, 3, 4, 5, 6, 7]);
        marks.push((x, y));
    }
    let (packed, offset, size) = pack_asset(grid as usize, &image);
    assert!(packed.width <= image.width && packed.height <= image.height);
    for (x, y) in marks {
        let px = x / tile * size.x + x % tile - offset.x;
        let py = y / tile * size.y + y % tile - offset.y;
        assert_eq!(pixel(&packed, px, py), pixel(&image, x, y));
    }
}

#[test]
fn packing_twice_cuts_off_nothing_more() {
    let mut image = blank(10, 10);
    mark(&mut image, 1, 2, [1; 8]);
    mark(&mut image, 8, 4, [2; 8]);
    let (packed, offset, size) = pack_asset(2, &image);
    assert_eq!((offset, size), (UVec2 { x: 1, y: 2 }, UVec2 { x: 3, y: 3 }));
    let (again, offset, again_size) = pack_asset(2, &packed);
    assert_eq!((offset, again_size), (UVec2 { x: 0, y: 0 }, size));
    assert_eq!((again.width, again.height), (6, 6));
    assert_eq!(again.data, packed.data);
}

#[test]
fn packing_has_one_result() {
    let mut image = blank(6, 6);
    mark(&mut image, 4, 1, [1, 2, 3, 4, 5, 6, 7, 8]);
    let (a, a_offset, a_size) = pack_asset(3, &image);
    let (b, b_offset, b_size) = pack_asset(3, &image);
    assert_eq!((a.width, a.height, a_offset, a_size), (b.width, b.height, b_offset, b_size));
    assert_eq!(a.data, b.data);
}

#[test]
fn only_the_first_word_marks_a_pixel() {
    let mut image = blank(4, 4);
    mark(&mut image, 3, 3, [0, 0, 0, 0, 1, 1, 1, 1]);
    let (packed, offset, size) = pack_asset(1, &image);
    assert_eq!(offset, UVec2 { x: 0, y: 0 });
    assert_eq!(size, UVec2 { x: 1, y: 1 });
    assert_eq!((packed.width, packed.height), (1, 1));
}

#[test]
fn a_blank_image_keeps_one_pixel_of_each_tile() {
    let image = blank(6, 6);
    let (packed, offset, size) = pack_asset(3, &image);
    assert_eq!(offset, UVec2 { x: 0, y: 0 });
    assert_eq!(size, UVec2 { x: 1, y: 1 });
    assert_eq!((packed.width, packed.height), (3, 3));
    assert_eq!(packed.data, vec![0; 8 * 9]);
}

#[test]
fn full_tiles_are_kept_whole() {
    let mut image = blank(4, 4);
    mark(&mut image, 0, 0, [1; 8]);
    mark(&mut image, 3, 3, [2; 8]);
    let (packed, offset, size) = pack_asset(2, &image);
    assert_eq!(offset, UVec2 { x: 0, y: 0 });
    assert_eq!(size, UVec2 { x: 2, y: 2 });
    assert_eq!(packed.data, image.data);
}

#[test]
fn pixels_beyond_the_tiles_are_left_out() {
    // Seven pixels hold two tiles of three; the last column and row belong to none.
    let mut image = blank(7, 7);
    mark(&mut image, 6, 6, [1; 8]);
    mark(&mut image, 4, 2, [3; 8]);
    let (packed, offset, size) = pack_asset(2, &image);
    assert_eq!(offset, UVec2 { x: 1, y: 2 });
    assert_eq!(size, UVec2 { x: 1, y: 1 });
    assert_eq!((packed.width, packed.height), (2, 2));
    assert_eq!(pixel(&packed, 1, 0), [3; 8]);
    assert_eq!(pixel(&packed, 1, 1), [0; 8]);
}

#[test]
fn a_grid_wider_than_the_image_repeats_its_first_pixel() {
    let mut image = blank(2, 1);
    mark(&mut image, 0, 0, [8; 8]);
    let (packed, offset, size) = pack_asset(3, &image);
    assert_eq!(offset, UVec2 { x: 0, y: 0 });
    assert_eq!(size, UVec2 { x: 1, y: 1 });
    assert_eq!((packed.width, packed.height), (3, 3));
    assert_eq!(packed.data, vec![8; 8 * 9]);
}

#[test]
fn a_pixel_is_marked_by_any_byte_of_its_first_word() {
    let mut image = blank(2, 1);
    mark(&mut image, 1, 0, [0, 0, 1, 0, 0, 0, 0, 0]);
    assert!(!image.is_marked(0, 0));
    assert!(image.is_marked(1, 0));
}

#[test]
fn images_are_packed_whose_tiles_lie_inside() {
    assert!(can_pack(2, &blank(4, 4)));
    assert!(can_pack(2, &blank(5, 4)));
    assert!(can_pack(3, &blank(2, 1)));
    assert!(!can_pack(2, &blank(4, 3)));
    assert!(!can_pack(0, &blank(4, 4)));
    assert!(!can_pack(1, &blank(0, 0)));
    assert!(!can_pack(usize::MAX, &blank(1, 1)));
    let short = Image { width: 2, height: 2, data: vec![0; 31] };
    assert!(!short.is_complete());
    assert!(!can_pack(1, &short));
}
