//! Reading a baked atlas back from the graphics device, whose rows are padded.
use vstd::prelude::*;

use crate::atlas::{Image, PIXEL_BYTES};

verus! {

/// The alignment of rows in a buffer that a texture is copied to: the constant
/// `wgpu::COPY_BYTES_PER_ROW_ALIGNMENT`, which is 256.
#[verifier::external_body]
pub(crate) fn row_alignment() -> (r: u32)
    ensures
        r == 256,
{
    wgpu::COPY_BYTES_PER_ROW_ALIGNMENT
}

/// The next multiple of the row alignment above `value`.
pub open spec fn aligned(value: int) -> int {
    value + (256 - value % 256)
}

/// The next multiple of the row alignment above `value`.
pub fn align_byte_size(value: u32) -> (r: u32)
    requires
        aligned(value as int) <= u32::MAX,
    ensures
        r == aligned(value as int),
        r % 256 == 0,
        value < r <= value + 256,
{
    let alignment: u32 = row_alignment();
    value + (alignment - value % alignment)
}

/// The bytes of `height` padded rows of `width` pixels.
pub open spec fn aligned_size(width: int, height: int, pixel_size: int) -> int {
    height * aligned(width * pixel_size)
}

/// The bytes of `height` padded rows of `width` pixels.
pub fn get_aligned_size(width: u32, height: u32, pixel_size: u32) -> (r: u32)
    requires
        aligned(width * pixel_size) <= u32::MAX,
        aligned_size(width as int, height as int, pixel_size as int) <= u32::MAX,
    ensures
        r == aligned_size(width as int, height as int, pixel_size as int),
        r == height * ((width * pixel_size / 256 + 1) * 256),
{
    assert(0 <= width * pixel_size) by (nonlinear_arith)
        requires
            0 <= width,
            0 <= pixel_size,
    ;
    let row: u32 = align_byte_size(width * pixel_size);
    height * row
}

/// The bytes between the starts of two rows of a buffer of `length` bytes that holds a square of
/// `size` pixels: those of the pixels alone where it is just as long as that, else padded.
pub open spec fn row_stride(length: int, size: int) -> int {
    if length == 8 * (size * size) {
        8 * size
    } else {
        aligned(8 * size)
    }
}

/// `data` are the rows of `buffer`, a square of `size` pixels, without padding.
pub open spec fn is_unpadded(data: Seq<u8>, buffer: Seq<u8>, size: int) -> bool {
    &&& data.len() == 8 * (size * size)
    &&& forall|y: int, b: int|
        0 <= y < size && 0 <= b < 8 * size ==> #[trigger] data[y * (8 * size) + b] == buffer[y
            * row_stride(buffer.len() as int, size) + b]
}

/// A buffer that can hold a square of `size` pixels: exactly the pixels, or as many padded rows.
pub open spec fn is_transfer_buffer(length: int, size: int) -> bool {
    &&& size * size <= u32::MAX
    &&& aligned(8 * size) <= u32::MAX
    &&& length == 8 * (size * size) || size * aligned(8 * size) <= length
}

/// Whether a buffer of `length` bytes can hold a square of `size` pixels.
pub fn can_read(length: usize, size: u32) -> (r: bool)
    ensures
        r == is_transfer_buffer(length as int, size as int),
        ({
            let row = (8 * size / 256 + 1) * 256;
            r == (size * size <= 0xffff_ffff && row <= 0xffff_ffff && (length == 8 * (size * size)
                || size * row <= length))
        }),
{
    assert(0 <= size * size <= 0xffff_ffff * 0xffff_ffff) by (nonlinear_arith)
        requires
            0 <= size <= 0xffff_ffff,
    ;
    let pixels: u128 = size as u128 * size as u128;
    let alignment: u128 = row_alignment() as u128;
    let row: u128 = 8 * size as u128;
    let padded: u128 = row + (alignment - row % alignment);
    assert(padded == aligned(8 * size));
    assert(0 <= size * padded <= 0xffff_ffff * 0x10_0000_0000) by (nonlinear_arith)
        requires
            0 <= size <= 0xffff_ffff,
            0 <= padded <= 0x10_0000_0000,
    ;
    pixels <= u32::MAX as u128 && padded <= u32::MAX as u128 && (length as u128 == 8 * pixels
        || size as u128 * padded <= length as u128)
}

/// Moves the rows of a square of `size` pixels together.
pub fn remove_padding(buffer: Vec<u8>, size: u32) -> (r: Vec<u8>)
    requires
        is_transfer_buffer(buffer@.len() as int, size as int),
    ensures
        is_unpadded(r@, buffer@, size as int),
{
    let ghost length = buffer@.len() as int;
    assert(buffer.len() == buffer@.len());
    assert(size * size <= u32::MAX);
    let pixels: u32 = size * size;
    assert(size <= 65535) by (nonlinear_arith)
        requires
            size * size <= 0xffff_ffff,
    ;
    if buffer.len() as u64 == 8 * pixels as u64 {
        return buffer;
    }
    let row: usize = size as usize * PIXEL_BYTES;
    let padded: usize = align_byte_size(size * 8) as usize;
    let mut result: Vec<u8> = Vec::new();
    let mut y: usize = 0;
    let mut from: usize = 0;
    while y < size as usize
        invariant
            y <= size <= 65535,
            row == 8 * size,
            padded == aligned(8 * size),
            padded == row_stride(length, size as int),
            buffer@.len() == length <= usize::MAX,
            size * padded <= length,
            from == y * padded,
            result@.len() == y * row,
            forall|v: int, b: int|
                0 <= v < y && 0 <= b < row ==> #[trigger] result@[v * row + b] == buffer@[v * padded
                    + b],
        decreases size - y,
    {
        assert(from + padded <= size * padded && (y + 1) * padded == from + padded && (y + 1) * row
            == y * row + row) by (nonlinear_arith)
            requires
                from == y * padded,
                y < size,
                0 <= padded,
        ;
        push_row(&mut result, &buffer, from, row);
        proof {
            assert forall|v: int, b: int|
                0 <= v < y + 1 && 0 <= b < row implies #[trigger] result@[v * row + b] == buffer@[v
                * padded + b] by {
                if v < y {
                    assert(v * row + row <= y * row && 0 <= v * row) by (nonlinear_arith)
                        requires
                            0 <= v < y,
                            0 <= row,
                    ;
                }
            }
        }
        from = from + padded;
        y = y + 1;
    }
    assert(size * row == 8 * (size * size)) by (nonlinear_arith)
        requires
            row == 8 * size,
    ;
    result
}

/// Appends `count` bytes of `buffer` from `from` on.
fn push_row(out: &mut Vec<u8>, buffer: &Vec<u8>, from: usize, count: usize)
    requires
        from + count <= buffer@.len(),
    ensures
        final(out)@ == old(out)@ + buffer@.subrange(from as int, from + count),
{
    assert(buffer.len() == buffer@.len());
    let mut i: usize = 0;
    while i < count
        invariant
            i <= count,
            from + count <= buffer@.len() <= usize::MAX,
            out@ == old(out)@ + buffer@.subrange(from as int, from + i),
        decreases count - i,
    {
        out.push(buffer[from + i]);
        assert(buffer@.subrange(from as int, from + i + 1) =~= buffer@.subrange(
            from as int,
            from + i,
        ).push(buffer@[from + i]));
        i = i + 1;
    }
}

/// The atlas in a buffer that a square of `size` pixels was copied to.
pub fn read_atlas(buffer: Vec<u8>, size: u32) -> (r: Image)
    requires
        is_transfer_buffer(buffer@.len() as int, size as int),
    ensures
        r.wf(),
        r.width == size,
        r.height == size,
        is_unpadded(r.data@, buffer@, size as int),
        forall|x: int, y: int, b: int|
            0 <= x < size && 0 <= y < size && 0 <= b < 8 ==> #[trigger] r.data@[8 * (y * size + x)
                + b] == buffer@[y * (if buffer@.len() == 8 * (size * size) {
                8 * size
            } else {
                (8 * size / 256 + 1) * 256
            }) + 8 * x + b],
{
    let ghost given = buffer@;
    let r = Image { width: size, height: size, data: remove_padding(buffer, size) };
    proof {
        assert forall|x: int, y: int, b: int|
            0 <= x < size && 0 <= y < size && 0 <= b < 8 implies #[trigger] r.data@[8 * (y * size
            + x) + b] == given[y * (if given.len() == 8 * (size * size) {
            8 * size
        } else {
            (8 * size / 256 + 1) * 256
        }) + 8 * x + b] by {
            law_padding_is_removed(r.data@, given, size as int, x, y, b);
        }
    }
    r
}

/// Whether the texel that starts at `at` holds anything but zeros.
pub open spec fn texel_used(data: Seq<u8>, at: int) -> bool {
    exists|b: int| at <= b < at + 8 && #[trigger] data[b] != 0
}

/// How many of the first `count` texels hold anything but zeros.
pub open spec fn used_texels(data: Seq<u8>, count: nat) -> nat
    decreases count,
{
    if count == 0 {
        0
    } else {
        used_texels(data, (count - 1) as nat) + if texel_used(data, 8 * (count - 1)) {
            1nat
        } else {
            0nat
        }
    }
}

/// How many texels of a buffer hold anything but zeros. None means that nothing was drawn.
pub fn count_used_texels(data: &Vec<u8>) -> (r: usize)
    ensures
        r == used_texels(data@, data@.len() / 8),
        r <= data@.len() / 8,
{
    let total: usize = data.len() / 8;
    let mut count: usize = 0;
    let mut i: usize = 0;
    while i < total
        invariant
            i <= total,
            total == data@.len() / 8,
            data@.len() <= usize::MAX,
            count <= i,
            count == used_texels(data@, i as nat),
        decreases total - i,
    {
        let at: usize = 8 * i;
        let used: bool = data[at] != 0 || data[at + 1] != 0 || data[at + 2] != 0 || data[at + 3]
            != 0 || data[at + 4] != 0 || data[at + 5] != 0 || data[at + 6] != 0 || data[at + 7]
            != 0;
        proof {
            if used {
                assert(data@[at + 0] != 0 || data@[at + 1] != 0 || data@[at + 2] != 0 || data@[at
                    + 3] != 0 || data@[at + 4] != 0 || data@[at + 5] != 0 || data@[at + 6] != 0
                    || data@[at + 7] != 0);
            }
            assert(used == texel_used(data@, 8 * i));
        }
        if used {
            count = count + 1;
        }
        i = i + 1;
    }
    count
}

/// A byte of a pixel that was read back is the byte that was copied: a pixel stands in its row,
/// and rows start at multiples of the row alignment, at least one byte apart, unless the buffer
/// has room for the pixels alone.
pub proof fn law_padding_is_removed(
    data: Seq<u8>,
    buffer: Seq<u8>,
    size: int,
    x: int,
    y: int,
    b: int,
)
    requires
        is_unpadded(data, buffer, size),
        0 <= x < size,
        0 <= y < size,
        0 <= b < 8,
    ensures
        data.len() == 8 * (size * size),
        data[8 * (y * size + x) + b] == buffer[y * (if buffer.len() == 8 * (size * size) {
            8 * size
        } else {
            (8 * size / 256 + 1) * 256
        }) + 8 * x + b],
{
    assert(y * (8 * size) + (8 * x + b) == 8 * (y * size + x) + b) by (nonlinear_arith);
    assert(data[y * (8 * size) + (8 * x + b)] == buffer[y * row_stride(buffer.len() as int, size)
        + (8 * x + b)]);
}

/// The texels that hold anything are counted, each once.
pub proof fn law_used_texels_are_counted(data: Seq<u8>, count: nat)
    ensures
        Set::new(
            |i: int| 0 <= i < count && exists|b: int| 0 <= b < 8 && #[trigger] data[8 * i + b] != 0,
        ).finite(),
        used_texels(data, count) == Set::new(
            |i: int| 0 <= i < count && exists|b: int| 0 <= b < 8 && #[trigger] data[8 * i + b] != 0,
        ).len(),
    decreases count,
{
    let used = Set::new(
        |i: int| 0 <= i < count && exists|b: int| 0 <= b < 8 && #[trigger] data[8 * i + b] != 0,
    );
    if count == 0 {
        assert(used =~= Set::<int>::empty());
    } else {
        let before = (count - 1) as nat;
        let fewer = Set::new(
            |i: int|
                0 <= i < before && exists|b: int| 0 <= b < 8 && #[trigger] data[8 * i + b] != 0,
        );
        law_used_texels_are_counted(data, before);
        let at = 8 * (count - 1);
        if texel_used(data, at) {
            let b = choose|b: int| at <= b < at + 8 && #[trigger] data[b] != 0;
            assert(data[8 * (count - 1) + (b - at)] != 0);
            assert(used =~= fewer.insert(count - 1));
        } else {
            assert forall|b: int| 0 <= b < 8 implies #[trigger] data[8 * (count - 1) + b] == 0 by {
                assert(!(data[at + b] != 0));
            }
            assert(used =~= fewer);
        }
    }
}

} // verus!
