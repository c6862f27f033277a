//! Storing an image as its distinct pixels and, for each pixel, the place of its value.
use std::collections::BTreeMap;

use vstd::arithmetic::div_mod::{lemma_fundamental_div_mod, lemma_fundamental_div_mod_converse};
use vstd::prelude::*;

use crate::atlas::{le_word, pixel_start, Image};
use crate::palette::{
    is_palette, key_bytes, lemma_palette_len, palette, pixel_key, pixel_keys, places, push_key,
    read_keys,
};

verus! {

/// An image of four bytes for each pixel, row after row.
#[derive(Debug)]
pub struct Picture {
    pub width: u32,
    pub height: u32,
    pub data: Vec<u8>,
}

impl Picture {
    /// The buffer holds exactly the pixels of the picture.
    pub open spec fn wf(&self) -> bool {
        self.data@.len() == 4 * (self.width * self.height)
    }

    /// Whether the picture has pixels, and a row of it, with one byte more, can be counted in 32
    /// bits.
    pub open spec fn encodable(&self) -> bool {
        &&& self.wf()
        &&& 0 < self.width
        &&& 4 * self.width < u32::MAX
        &&& 0 < self.height
    }
}

/// The pictures an asset is made of: the image itself, or its distinct pixels and the place of
/// each pixel among them.
#[derive(Debug)]
pub enum AssetImages {
    Direct { texture: Picture },
    Indexed { pixels: Picture, indices: Picture },
}

impl AssetImages {
    /// Whether all the pictures can be encoded.
    pub open spec fn encodable(&self) -> bool {
        match self {
            AssetImages::Direct { texture } => texture.encodable(),
            AssetImages::Indexed { pixels, indices } => pixels.encodable() && indices.encodable(),
        }
    }
}

/// `side` is the least number of columns, and as many rows, in which `bytes` bytes of two-word
/// pixels find room.
pub open spec fn is_block_side(side: int, bytes: int) -> bool {
    &&& 0 <= side
    &&& bytes <= 8 * (side * side)
    &&& 0 < side ==> 8 * ((side - 1) * (side - 1)) < bytes
}

/// The number of columns in which `bytes` bytes of two-word pixels are laid out.
pub open spec fn block_side(bytes: int) -> int {
    choose|side: int| #[trigger] is_block_side(side, bytes)
}

/// The number of rows that `bytes` bytes of two-word pixels take in `side` columns.
pub open spec fn block_rows(bytes: int, side: int) -> int {
    if side == 0 {
        0
    } else {
        (bytes + 8 * side - 1) / (8 * side)
    }
}

/// At most one number is the side of a block.
pub proof fn lemma_block_side_unique(a: int, b: int, bytes: int)
    requires
        is_block_side(a, bytes),
        is_block_side(b, bytes),
    ensures
        a == b,
{
    if a < b {
        assert(a * a <= (b - 1) * (b - 1)) by (nonlinear_arith)
            requires
                0 <= a <= b - 1,
        ;
    }
    if b < a {
        assert(b * b <= (a - 1) * (a - 1)) by (nonlinear_arith)
            requires
                0 <= b <= a - 1,
        ;
    }
}

/// Every number of bytes has a block.
pub proof fn lemma_block_side(bytes: int)
    requires
        0 <= bytes,
    ensures
        is_block_side(block_side(bytes), bytes),
    decreases bytes,
{
    if bytes == 0 {
        assert(is_block_side(0, bytes));
    } else {
        lemma_block_side(bytes - 1);
        let side = block_side(bytes - 1);
        if bytes <= 8 * (side * side) {
            assert(is_block_side(side, bytes));
        } else {
            assert(bytes <= 8 * ((side + 1) * (side + 1))) by (nonlinear_arith)
                requires
                    0 <= side,
                    bytes - 1 <= 8 * (side * side),
            ;
            assert(is_block_side(side + 1, bytes));
        }
    }
}

/// The number of columns in which `bytes` bytes of two-word pixels are laid out.
pub fn find_block_side(bytes: usize) -> (r: u32)
    ensures
        r == block_side(bytes as int),
        is_block_side(r as int, bytes as int),
        bytes <= 8 * (r * r),
        0 < r ==> 8 * ((r - 1) * (r - 1)) < bytes,
{
    let wanted: u128 = bytes as u128;
    let mut side: u128 = 0;
    while 8 * (side * side) < wanted
        invariant
            wanted == bytes,
            wanted <= 0xffff_ffff_ffff_ffff,
            side <= 0x8000_0000,
            side * side <= 0x4000_0000_0000_0000,
            0 < side ==> 8 * ((side - 1) * (side - 1)) < bytes,
        decreases 0x8000_0000 - side,
    {
        assert(side < 0x8000_0000) by (nonlinear_arith)
            requires
                8 * (side * side) < wanted,
                wanted <= 0xffff_ffff_ffff_ffff,
        ;
        side = side + 1;
        assert(side * side <= 0x4000_0000_0000_0000) by (nonlinear_arith)
            requires
                side <= 0x8000_0000,
        ;
    }
    proof {
        assert(is_block_side(side as int, bytes as int));
        lemma_block_side_unique(side as int, block_side(bytes as int), bytes as int);
    }
    side as u32
}

/// A block never has more rows than columns, and holds all the bytes.
pub proof fn lemma_block_rows(bytes: int, side: int)
    requires
        is_block_side(side, bytes),
        0 <= bytes,
    ensures
        0 <= block_rows(bytes, side) <= side,
        bytes <= 8 * (side * block_rows(bytes, side)),
        0 < bytes ==> 0 < side && 0 < block_rows(bytes, side),
        0 < bytes ==> 8 * (side * (block_rows(bytes, side) - 1)) < bytes,
{
    if side > 0 {
        let row = 8 * side;
        let rows = block_rows(bytes, side);
        lemma_fundamental_div_mod(bytes + row - 1, row);
        let m = (bytes + row - 1) % row;
        assert(bytes + row - 1 == row * rows + m);
        assert(bytes <= row * rows && row * (rows - 1) < bytes && 0 <= rows && (rows == 0 ==> bytes
            <= 0)) by (nonlinear_arith)
            requires
                bytes + row - 1 == row * rows + m,
                0 <= m < row,
                0 < row,
                0 <= bytes,
        ;
        assert(row * rows == 8 * (side * rows) && row * (rows - 1) == 8 * (side * (rows - 1)))
            by (nonlinear_arith)
            requires
                row == 8 * side,
        ;
        if rows > side {
            assert(side * side <= side * (rows - 1)) by (nonlinear_arith)
                requires
                    side <= rows - 1,
                    0 < side,
            ;
        }
    } else {
        assert(8 * (side * side) == 0) by (nonlinear_arith)
            requires
                side == 0,
        ;
    }
}

/// The number of rows that `bytes` bytes of two-word pixels take in `side` columns.
pub fn find_block_rows(bytes: usize, side: u32) -> (r: u32)
    requires
        is_block_side(side as int, bytes as int),
    ensures
        r == block_rows(bytes as int, side as int),
        bytes <= 8 * (side * r),
        0 < r ==> 8 * (side * (r - 1)) < bytes,
{
    proof {
        lemma_block_rows(bytes as int, side as int);
    }
    if side == 0 {
        0
    } else {
        let row: u128 = 8 * side as u128;
        ((bytes as u128 + row - 1) / row) as u32
    }
}

/// A block that is filled up has the same columns and rows as what was filled up.
pub proof fn lemma_block_full(bytes: int, side: int)
    requires
        0 <= bytes,
        is_block_side(side, bytes),
    ensures
        is_block_side(side, 8 * (side * block_rows(bytes, side))),
        block_rows(8 * (side * block_rows(bytes, side)), side) == block_rows(bytes, side),
{
    let rows = block_rows(bytes, side);
    let full = 8 * (side * rows);
    lemma_block_rows(bytes, side);
    assert(side * rows <= side * side) by (nonlinear_arith)
        requires
            0 <= rows <= side,
    ;
    if side > 0 {
        assert(full + 8 * side - 1 == (8 * side) * rows + (8 * side - 1)) by (nonlinear_arith)
            requires
                full == 8 * (side * rows),
        ;
        lemma_fundamental_div_mod_converse(full + 8 * side - 1, 8 * side, rows, 8 * side - 1);
    }
}

/// How many different pixels a buffer holds.
pub open spec fn distinct_pixels(data: Seq<u8>) -> int {
    pixel_keys(data).to_set().len() as int
}

/// How many places the block of `distinct` different pixels has.
pub open spec fn palette_slots(distinct: int) -> int {
    block_side(8 * distinct) * block_rows(8 * distinct, block_side(8 * distinct))
}

/// Whether places among so many can be written in two bytes.
pub open spec fn is_narrow(slots: int) -> bool {
    slots < 65536
}

/// The bytes that one place takes.
pub open spec fn index_bytes(narrow: bool) -> int {
    if narrow {
        2
    } else {
        4
    }
}

/// Whether the block of the different pixels and the filled rows of the places together take
/// fewer bytes than the image.
pub open spec fn worth_indexing(image: &Image) -> bool {
    let slots = palette_slots(distinct_pixels(image.data@));
    let columns = index_columns(image.width as int, is_narrow(slots));
    8 * slots + 4 * (columns * image.height) < 8 * (image.width * image.height)
}

/// The different pixels of a buffer, from the least to the greatest.
pub open spec fn sorted_palette(data: Seq<u8>) -> Seq<u64> {
    choose|colors: Seq<u64>| #[trigger] is_palette(colors, pixel_keys(data))
}

/// The width in four-byte pixels of the picture that holds the places of `width` pixels a row.
pub open spec fn index_columns(width: int, narrow: bool) -> int {
    if narrow {
        (width + 1) / 2
    } else {
        width
    }
}

/// The place that a picture of places, `columns` wide, holds for the pixel at column `x` of row
/// `y`.
pub open spec fn stored_index(
    data: Seq<u8>,
    columns: int,
    narrow: bool,
    x: int,
    y: int,
) -> int {
    if narrow {
        let at = 4 * (y * columns) + 2 * x;
        data[at] + 256 * data[at + 1]
    } else {
        le_word(data, 4 * (y * columns) + 4 * x)
    }
}

/// `picture` holds the pixels `colors` one after the other, in a block, filled up with zeros.
pub open spec fn is_palette_picture(picture: &Picture, colors: Seq<u64>) -> bool {
    let side = block_side(8 * colors.len() as int);
    &&& picture.wf()
    &&& picture.width == 2 * side
    &&& picture.height == block_rows(8 * colors.len() as int, side)
    &&& 8 * colors.len() <= picture.data@.len()
    &&& forall|i: int|
        0 <= i < colors.len() ==> picture.data@.subrange(8 * i, 8 * i + 8) == key_bytes(
            #[trigger] colors[i],
        )
    &&& forall|k: int|
        8 * colors.len() <= k < picture.data@.len() ==> #[trigger] picture.data@[k] == 0
}

/// `picture` holds, for every pixel of `image`, its place among `colors`; rows are filled up
/// with zeros to whole words.
pub open spec fn is_index_picture(
    picture: &Picture,
    image: &Image,
    colors: Seq<u64>,
    narrow: bool,
) -> bool {
    let columns = index_columns(image.width as int, narrow);
    &&& picture.wf()
    &&& picture.width == columns
    &&& picture.height == image.height
    &&& forall|x: int, y: int|
        0 <= x < image.width && 0 <= y < image.height ==> {
            let i = #[trigger] stored_index(picture.data@, columns, narrow, x, y);
            0 <= i < colors.len() && colors[i] == pixel_key(
                image.data@,
                pixel_start(image.width as int, x, y),
            )
        }
    &&& narrow && image.width % 2 == 1 ==> forall|y: int|
        0 <= y < image.height ==> #[trigger] stored_index(
            picture.data@,
            columns,
            narrow,
            image.width as int,
            y,
        ) == 0
}

/// The pictures that stand for `image`: an indexed form where that is asked for and takes fewer
/// bytes, else the image itself.
pub open spec fn are_images_of(images: AssetImages, image: &Image, index: bool) -> bool {
    let colors = sorted_palette(image.data@);
    match images {
        AssetImages::Direct { texture } => {
            &&& !(index && worth_indexing(image))
            &&& texture.width == 2 * image.width
            &&& texture.height == image.height
            &&& texture.data@ == image.data@
        },
        AssetImages::Indexed { pixels, indices } => {
            &&& index && worth_indexing(image)
            &&& is_palette_picture(&pixels, colors)
            &&& is_index_picture(
                &indices,
                image,
                colors,
                is_narrow(palette_slots(colors.len() as int)),
            )
        },
    }
}

/// The bytes of a place, the least significant first.
spec fn place_bytes(place: int, narrow: bool) -> Seq<u8> {
    if narrow {
        seq![(place % 256) as u8, (place / 256 % 256) as u8]
    } else {
        seq![
            (place % 256) as u8,
            (place / 256 % 256) as u8,
            (place / 256 / 256 % 256) as u8,
            (place / 256 / 256 / 256 % 256) as u8,
        ]
    }
}

/// Appends a place, the least significant byte first.
fn push_place(out: &mut Vec<u8>, place: usize, narrow: bool)
    ensures
        final(out)@ == old(out)@ + place_bytes(place as int, narrow),
{
    out.push((place % 256) as u8);
    out.push((place / 256 % 256) as u8);
    if !narrow {
        out.push((place / 256 / 256 % 256) as u8);
        out.push((place / 256 / 256 / 256 % 256) as u8);
    }
    assert(out@ =~= old(out)@ + place_bytes(place as int, narrow));
}

/// The place that starts at `at`.
spec fn place_at(data: Seq<u8>, at: int, narrow: bool) -> int {
    if narrow {
        data[at] + 256 * data[at + 1]
    } else {
        le_word(data, at)
    }
}

/// A place that was appended is read back.
proof fn lemma_place_read(before: Seq<u8>, place: int, narrow: bool)
    requires
        0 <= place <= u32::MAX,
        narrow ==> place < 65536,
    ensures
        place_at(before + place_bytes(place, narrow), before.len() as int, narrow) == place,
{
    let all = before + place_bytes(place, narrow);
    let at = before.len() as int;
    let second = place / 256;
    let third = second / 256;
    let fourth = third / 256;
    assert(place == 256 * second + place % 256);
    assert(second == 256 * third + second % 256);
    assert(third == 256 * fourth + third % 256);
    assert(0 <= fourth < 256);
    assert(all[at] == place % 256);
    assert(all[at + 1] == second % 256);
    if narrow {
        assert(second < 256);
    } else {
        assert(all[at + 2] == third % 256);
        assert(all[at + 3] == fourth);
    }
}

/// Appends the places of `width` pixels, from the pixel numbered `from` on, filled up to whole
/// words.
fn push_index_row(
    out: &mut Vec<u8>,
    keys: &Vec<u64>,
    from: usize,
    width: usize,
    narrow: bool,
    places: &BTreeMap<u64, usize>,
    colors: &Vec<u64>,
)
    requires
        from + width <= keys@.len(),
        width < 0x8000_0000,
        is_palette(colors@, keys@),
        colors@.len() <= u32::MAX,
        narrow ==> colors@.len() <= 65536,
        forall|i: int|
            0 <= i < colors@.len() ==> places@.contains_key(#[trigger] colors@[i])
                && places@[colors@[i]] == i,
    ensures
        final(out)@.len() == old(out)@.len() + 4 * index_columns(width as int, narrow),
        forall|k: int| 0 <= k < old(out)@.len() ==> #[trigger] final(out)@[k] == old(out)@[k],
        forall|x: int|
            0 <= x < width ==> {
                let i = #[trigger] place_at(
                    final(out)@,
                    old(out)@.len() + index_bytes(narrow) * x,
                    narrow,
                );
                0 <= i < colors@.len() && colors@[i] == keys@[from + x]
            },
        narrow && width % 2 == 1 ==> place_at(final(out)@, old(out)@.len() + 2 * width, narrow)
            == 0,
{
    let ghost start = out@;
    let unit: usize = if narrow {
        2
    } else {
        4
    };
    let mut x: usize = 0;
    while x < width
        invariant
            unit == index_bytes(narrow),
            x <= width,
            width < 0x8000_0000,
            from + width <= keys@.len(),
            is_palette(colors@, keys@),
            colors@.len() <= u32::MAX,
            narrow ==> colors@.len() <= 65536,
            forall|i: int|
                0 <= i < colors@.len() ==> places@.contains_key(#[trigger] colors@[i])
                    && places@[colors@[i]] == i,
            out@.len() == start.len() + unit * x,
            forall|k: int| 0 <= k < start.len() ==> #[trigger] out@[k] == start[k],
            forall|v: int|
                0 <= v < x ==> {
                    let i = #[trigger] place_at(out@, start.len() + unit * v, narrow);
                    0 <= i < colors@.len() && colors@[i] == keys@[from + v]
                },
        decreases width - x,
    {
        assert(keys.len() == keys@.len());
        let key: u64 = keys[from + x];
        let ghost place = choose|i: int| 0 <= i < colors@.len() && colors@[i] == key;
        assert(colors@.contains(keys@[from + x]));
        assert(places@.contains_key(colors@[place]));
        let found: usize = match places.get(&key) {
            Some(i) => *i,
            None => 0,
        };
        assert(found == place);
        let ghost before = out@;
        push_place(out, found, narrow);
        proof {
            lemma_place_read(before, found as int, narrow);
            assert forall|v: int| 0 <= v < x + 1 implies ({
                let i = #[trigger] place_at(out@, start.len() + unit * v, narrow);
                0 <= i < colors@.len() && colors@[i] == keys@[from + v]
            }) by {
                if v < x {
                    assert(unit * v + unit <= unit * x) by (nonlinear_arith)
                        requires
                            v < x,
                            0 < unit,
                    ;
                    assert(place_at(out@, start.len() + unit * v, narrow) == place_at(
                        before,
                        start.len() + unit * v,
                        narrow,
                    ));
                }
            }
            assert(unit * (x + 1) == unit * x + unit) by (nonlinear_arith);
        }
        x = x + 1;
    }
    if narrow && width % 2 == 1 {
        let ghost before = out@;
        out.push(0);
        out.push(0);
        proof {
            assert forall|v: int| 0 <= v < width implies ({
                let i = #[trigger] place_at(out@, start.len() + unit * v, narrow);
                0 <= i < colors@.len() && colors@[i] == keys@[from + v]
            }) by {
                assert(place_at(out@, start.len() + unit * v, narrow) == place_at(
                    before,
                    start.len() + unit * v,
                    narrow,
                ));
            }
        }
    }
}

/// The picture of the different pixels: a block of them, filled up with zeros.
fn palette_picture(colors: &Vec<u64>, side: u32, rows: u32) -> (r: Picture)
    requires
        0 < colors@.len() <= 0x2000_0000,
        is_block_side(side as int, 8 * colors@.len() as int),
        rows == block_rows(8 * colors@.len() as int, side as int),
    ensures
        is_palette_picture(&r, colors@),
{
    let ghost bytes = 8 * colors@.len() as int;
    proof {
        lemma_block_rows(bytes, side as int);
        lemma_block_side_unique(side as int, block_side(bytes), bytes);
        assert(side <= 0x8000) by (nonlinear_arith)
            requires
                0 < side,
                8 * ((side - 1) * (side - 1)) < bytes,
                bytes <= 0x1_0000_0000,
        ;
        assert(side * rows <= 0x4000_0000) by (nonlinear_arith)
            requires
                side <= 0x8000,
                rows <= side,
        ;
    }
    let mut data: Vec<u8> = Vec::new();
    let mut i: usize = 0;
    while i < colors.len()
        invariant
            i <= colors@.len() <= 0x2000_0000,
            data@.len() == 8 * i,
            forall|k: int|
                0 <= k < i ==> data@.subrange(8 * k, 8 * k + 8) == key_bytes(#[trigger] colors@[k]),
        decreases colors@.len() - i,
    {
        let ghost before = data@;
        push_key(&mut data, colors[i]);
        proof {
            assert forall|k: int| 0 <= k < i + 1 implies data@.subrange(8 * k, 8 * k + 8)
                == key_bytes(#[trigger] colors@[k]) by {
                if k < i {
                    assert(data@.subrange(8 * k, 8 * k + 8) =~= before.subrange(8 * k, 8 * k + 8));
                } else {
                    assert(data@.subrange(8 * k, 8 * k + 8) =~= key_bytes(colors@[k]));
                }
            }
        }
        i = i + 1;
    }
    let ghost filled = data@;
    let full: u64 = 8 * (side as u64 * rows as u64);
    while (data.len() as u64) < full
        invariant
            full == 8 * (side * rows),
            full <= 0x2_0000_0000,
            filled.len() == bytes,
            bytes <= data@.len() <= full,
            forall|k: int| 0 <= k < filled.len() ==> #[trigger] data@[k] == filled[k],
            forall|k: int| bytes <= k < data@.len() ==> #[trigger] data@[k] == 0,
        decreases full - data@.len(),
    {
        data.push(0);
    }
    assert forall|k: int| 0 <= k < colors@.len() implies data@.subrange(8 * k, 8 * k + 8)
        == key_bytes(#[trigger] colors@[k]) by {
        assert(data@.subrange(8 * k, 8 * k + 8) =~= filled.subrange(8 * k, 8 * k + 8));
    }
    assert(4 * ((2 * side) * rows) == 8 * (side * rows)) by (nonlinear_arith);
    Picture { width: 2 * side, height: rows, data }
}

/// The picture of the places of all the pixels of `image` among `colors`.
fn index_picture(image: &Image, keys: &Vec<u64>, colors: &Vec<u64>, narrow: bool) -> (r: Picture)
    requires
        image.wf(),
        image.width < 0x8000_0000,
        keys@ == pixel_keys(image.data@),
        is_palette(colors@, keys@),
        colors@.len() <= u32::MAX,
        narrow ==> colors@.len() <= 65536,
    ensures
        is_index_picture(&r, image, colors@, narrow),
{
    let width: usize = image.width as usize;
    let height: usize = image.height as usize;
    let columns: u32 = if narrow {
        (image.width + 1) / 2
    } else {
        image.width
    };
    let lookup = places(colors);
    let mut data: Vec<u8> = Vec::new();
    let mut y: usize = 0;
    let mut from: usize = 0;
    assert(keys.len() == keys@.len());
    assert(keys@.len() == width * height);
    while y < height
        invariant
            image.wf(),
            width == image.width,
            height == image.height,
            width < 0x8000_0000,
            y <= height,
            from == y * width,
            keys@.len() == width * height <= usize::MAX,
            keys@ == pixel_keys(image.data@),
            is_palette(colors@, keys@),
            colors@.len() <= u32::MAX,
            narrow ==> colors@.len() <= 65536,
            forall|i: int|
                0 <= i < colors@.len() ==> lookup@.contains_key(#[trigger] colors@[i])
                    && lookup@[colors@[i]] == i,
            columns == index_columns(width as int, narrow),
            data@.len() == 4 * (y * columns),
            forall|u: int, v: int|
                0 <= u < width && 0 <= v < y ==> {
                    let i = #[trigger] stored_index(data@, columns as int, narrow, u, v);
                    0 <= i < colors@.len() && colors@[i] == pixel_key(
                        image.data@,
                        pixel_start(width as int, u, v),
                    )
                },
            narrow && width % 2 == 1 ==> forall|v: int|
                0 <= v < y ==> #[trigger] stored_index(
                    data@,
                    columns as int,
                    narrow,
                    width as int,
                    v,
                ) == 0,
        decreases height - y,
    {
        let ghost before = data@;
        assert(from + width <= width * height) by (nonlinear_arith)
            requires
                from == y * width,
                y < height,
        ;
        push_index_row(&mut data, keys, from, width, narrow, &lookup, colors);
        proof {
            assert(4 * ((y + 1) * columns) == 4 * (y * columns) + 4 * columns) by (nonlinear_arith);
            assert((y + 1) * width == y * width + width) by (nonlinear_arith);
            assert forall|u: int, v: int| 0 <= u < width && 0 <= v < y + 1 implies ({
                let i = #[trigger] stored_index(data@, columns as int, narrow, u, v);
                0 <= i < colors@.len() && colors@[i] == pixel_key(
                    image.data@,
                    pixel_start(width as int, u, v),
                )
            }) by {
                lemma_stored_rows(
                    before,
                    data@,
                    columns as int,
                    narrow,
                    width as int,
                    u,
                    v,
                    y as int,
                );
                if v == y {
                    assert(stored_index(data@, columns as int, narrow, u, v) == place_at(
                        data@,
                        before.len() + index_bytes(narrow) * u,
                        narrow,
                    ));
                    assert(keys@[from + u] == pixel_key(image.data@, 8 * (from + u)));
                }
            }
            if narrow && width % 2 == 1 {
                assert forall|v: int| 0 <= v < y + 1 implies #[trigger] stored_index(
                    data@,
                    columns as int,
                    narrow,
                    width as int,
                    v,
                ) == 0 by {
                    lemma_stored_rows(
                        before,
                        data@,
                        columns as int,
                        narrow,
                        width as int,
                        width as int,
                        v,
                        y as int,
                    );
                    if v == y {
                        assert(stored_index(data@, columns as int, narrow, width as int, v)
                            == place_at(data@, before.len() + 2 * width, narrow));
                    }
                }
            }
        }
        from = from + width;
        y = y + 1;
    }
    assert(4 * (columns * image.height) == 4 * (image.height * columns)) by (nonlinear_arith);
    Picture { width: columns, height: image.height, data }
}

/// What an earlier row holds does not change when a row is appended.
proof fn lemma_stored_rows(
    before: Seq<u8>,
    after: Seq<u8>,
    columns: int,
    narrow: bool,
    width: int,
    u: int,
    v: int,
    y: int,
)
    requires
        columns == index_columns(width, narrow),
        0 <= u <= width,
        u == width ==> narrow && width % 2 == 1,
        0 <= v <= y,
        before.len() == 4 * (y * columns),
        before.len() <= after.len(),
        forall|k: int| 0 <= k < before.len() ==> #[trigger] after[k] == before[k],
    ensures
        v < y ==> stored_index(after, columns, narrow, u, v) == stored_index(
            before,
            columns,
            narrow,
            u,
            v,
        ),
{
    if v < y {
        assert(0 <= v * columns && v * columns + columns <= y * columns) by (nonlinear_arith)
            requires
                0 <= v < y,
                0 <= columns,
        ;
        assert(index_bytes(narrow) * u + index_bytes(narrow) <= 4 * columns);
    }
}

/// At most one palette belongs to a buffer.
pub proof fn lemma_palette_unique(a: Seq<u64>, b: Seq<u64>, keys: Seq<u64>)
    requires
        is_palette(a, keys),
        is_palette(b, keys),
    ensures
        a == b,
{
    lemma_palette_len(a, keys);
    lemma_palette_len(b, keys);
    assert forall|i: int| 0 <= i < a.len() implies a[i] == b[i] by {
        lemma_palette_prefix(a, b, keys, i);
    }
    assert(a =~= b);
}

/// Two palettes of one buffer agree at every place.
proof fn lemma_palette_prefix(a: Seq<u64>, b: Seq<u64>, keys: Seq<u64>, i: int)
    requires
        is_palette(a, keys),
        is_palette(b, keys),
        0 <= i < a.len(),
        a.len() == b.len(),
    ensures
        a[i] == b[i],
    decreases i,
{
    assert(keys.contains(a[i]) && keys.contains(b[i]));
    let k = choose|k: int| 0 <= k < keys.len() && keys[k] == a[i];
    assert(b.contains(keys[k]));
    let in_b = choose|j: int| 0 <= j < b.len() && b[j] == a[i];
    let l = choose|l: int| 0 <= l < keys.len() && keys[l] == b[i];
    assert(a.contains(keys[l]));
    let in_a = choose|j: int| 0 <= j < a.len() && a[j] == b[i];
    if in_b < i {
        lemma_palette_prefix(a, b, keys, in_b);
        assert(false);
    }
    if in_a < i {
        lemma_palette_prefix(a, b, keys, in_a);
        assert(false);
    }
}

/// Whether an image of this size can be stored: a row of it, with one byte more, can be counted
/// in 32 bits, and where it is to be indexed all its bytes can.
pub open spec fn storable_size(width: int, height: int, index: bool) -> bool {
    &&& 8 * width < u32::MAX
    &&& index ==> 8 * (width * height) <= u32::MAX
}

/// Whether `image` can be stored.
pub open spec fn storable(image: &Image, index: bool) -> bool {
    storable_size(image.width as int, image.height as int, index)
}

/// Whether an image of this size can be stored.
pub fn can_store(width: u32, height: u32, index: bool) -> (r: bool)
    ensures
        r == storable_size(width as int, height as int, index),
        r == (8 * width < 0xffff_ffff && (index ==> 8 * (width * height) <= 0xffff_ffff)),
{
    assert(0 <= width * height <= 0xffff_ffff * 0xffff_ffff) by (nonlinear_arith)
        requires
            0 <= width <= 0xffff_ffff,
            0 <= height <= 0xffff_ffff,
    ;
    let bytes: u128 = 8 * (width as u128 * height as u128);
    8 * width as u64 <= u32::MAX as u64 - 1 && (!index || bytes <= u32::MAX as u128)
}

/// The pictures that stand for `image`, indexed where `index` asks for it and it takes fewer
/// bytes.
pub fn plan_images(image: Image, index: bool) -> (r: AssetImages)
    requires
        image.wf(),
        0 < image.width,
        0 < image.height,
        storable(&image, index),
    ensures
        are_images_of(r, &image, index),
        r.encodable(),
{
    if index {
        let keys = read_keys(&image.data);
        let colors = palette(&keys);
        let pixels: u64 = image.width as u64 * image.height as u64;
        let ghost n = colors@.len() as int;
        proof {
            lemma_palette_len(colors@, keys@);
            lemma_palette_unique(colors@, sorted_palette(image.data@), keys@);
            assert(0 < image.width * image.height) by (nonlinear_arith)
                requires
                    0 < image.width,
                    0 < image.height,
            ;
            assert(keys@.len() == pixels);
            assert(colors@.contains(keys@[0]));
            assert(n == distinct_pixels(image.data@));
        }
        assert(colors.len() == colors@.len());
        let bytes: usize = 8 * colors.len();
        let side: u32 = find_block_side(bytes);
        let rows: u32 = find_block_rows(bytes, side);
        proof {
            lemma_block_rows(8 * n, side as int);
            assert(side <= 0x8000) by (nonlinear_arith)
                requires
                    0 < side,
                    8 * ((side - 1) * (side - 1)) < 8 * n,
                    8 * n <= 0x1_0000_0000,
            ;
            assert(side * rows <= 0x4000_0000) by (nonlinear_arith)
                requires
                    side <= 0x8000,
                    rows <= side,
            ;
            assert(0 <= side * rows) by (nonlinear_arith)
                requires
                    0 <= side,
                    0 <= rows,
            ;
        }
        let slots: u64 = side as u64 * rows as u64;
        let narrow: bool = slots < 65536;
        assert(image.width <= pixels) by (nonlinear_arith)
            requires
                pixels == image.width * image.height,
                0 < image.height,
        ;
        let columns: u64 = if narrow {
            (image.width as u64 + 1) / 2
        } else {
            image.width as u64
        };
        assert(0 <= columns * image.height <= pixels) by (nonlinear_arith)
            requires
                0 <= columns <= image.width,
                pixels == image.width * image.height,
                0 < image.height,
        ;
        if 8 * slots + 4 * (columns * image.height as u64) < 8 * pixels {
            let picture = palette_picture(&colors, side, rows);
            let indices = index_picture(&image, &keys, &colors, narrow);
            return AssetImages::Indexed { pixels: picture, indices };
        }
    }
    assert(4 * ((2 * image.width) * image.height) == 8 * (image.width * image.height))
        by (nonlinear_arith);
    AssetImages::Direct {
        texture: Picture { width: 2 * image.width, height: image.height, data: image.data },
    }
}

} // verus!
