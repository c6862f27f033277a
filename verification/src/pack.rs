//! Trimming the blank edges that all tiles of an atlas share.
use vstd::arithmetic::div_mod::{
    lemma_div_is_ordered_by_denominator, lemma_fundamental_div_mod,
    lemma_fundamental_div_mod_converse,
};
use vstd::prelude::*;

use crate::atlas::{lemma_pixel_in_bounds, pixel_start, Image};
use crate::math::UVec2;

verus! {

/// Side of one tile, when `grid` tiles stand side by side in `width` pixels.
pub open spec fn tile_side(width: int, grid: int) -> int {
    width / grid
}

/// Some marked pixel of the tiled area stands in column `column` of its tile.
pub open spec fn column_used(image: &Image, grid: int, column: int) -> bool {
    let tile = tile_side(image.width as int, grid);
    exists|x: int, y: int|
        0 <= x < grid * tile && 0 <= y < grid * tile && x % tile == column
            && #[trigger] image.marked(x, y)
}

/// Some marked pixel of the tiled area stands in row `row` of its tile.
pub open spec fn row_used(image: &Image, grid: int, row: int) -> bool {
    let tile = tile_side(image.width as int, grid);
    exists|x: int, y: int|
        0 <= x < grid * tile && 0 <= y < grid * tile && y % tile == row
            && #[trigger] image.marked(x, y)
}

/// `count` places from `start` on are the shortest run that holds every used place among the
/// first `limit`; where none is used, the first place alone.
pub open spec fn is_span(used: spec_fn(int) -> bool, limit: int, start: int, count: int) -> bool {
    if exists|i: int| 0 <= i < limit && #[trigger] used(i) {
        &&& 0 <= start
        &&& 1 <= count
        &&& start + count <= limit
        &&& used(start)
        &&& used(start + count - 1)
        &&& forall|i: int| 0 <= i < limit && #[trigger] used(i) ==> start <= i < start + count
    } else {
        start == 0 && count == 1
    }
}

/// What packing asks of an image: its tiles lie inside it, and the packed image can be
/// addressed.
pub open spec fn packable(image: &Image, grid: int) -> bool {
    let tile = tile_side(image.width as int, grid);
    &&& image.wf()
    &&& grid > 0
    &&& image.width > 0
    &&& image.height > 0
    &&& grid * tile <= image.height
    &&& tile == 0 ==> 8 * (grid * grid) <= isize::MAX
}

/// The column of the source image from which column `x` of the packed image comes.
pub open spec fn source_place(tile: int, start: int, count: int, x: int) -> int {
    (x / count) * tile + start + x % count
}

/// `packed` is made of the same window of every tile of `image`: `size` pixels from `offset` on.
pub open spec fn is_window_of(
    packed: &Image,
    image: &Image,
    grid: int,
    offset: UVec2,
    size: UVec2,
) -> bool {
    let tile = tile_side(image.width as int, grid);
    &&& packed.wf()
    &&& packed.width == size.x * grid
    &&& packed.height == size.y * grid
    &&& forall|x: int, y: int|
        0 <= x < packed.width && 0 <= y < packed.height ==> #[trigger] packed.pixel(x, y)
            == image.pixel(
            source_place(tile, offset.x as int, size.x as int, x),
            source_place(tile, offset.y as int, size.y as int, y),
        )
}

/// The result of packing: the least window of the tiles that holds everything marked.
pub open spec fn is_packed(
    packed: &Image,
    image: &Image,
    grid: int,
    offset: UVec2,
    size: UVec2,
) -> bool {
    let tile = tile_side(image.width as int, grid);
    &&& is_span(|i: int| column_used(image, grid, i), tile, offset.x as int, size.x as int)
    &&& is_span(|i: int| row_used(image, grid, i), tile, offset.y as int, size.y as int)
    &&& is_window_of(packed, image, grid, offset, size)
}

/// Some pixel among the first `limit` of row `y` is marked and stands in column `column` of its
/// tile.
spec fn row_marks(image: &Image, tile: int, limit: int, y: int, column: int) -> bool {
    exists|x: int| 0 <= x < limit && x % tile == column && #[trigger] image.marked(x, y)
}

/// Some pixel among the first `limit` of row `y` is marked.
spec fn row_marked(image: &Image, limit: int, y: int) -> bool {
    exists|x: int| 0 <= x < limit && #[trigger] image.marked(x, y)
}

/// Notes in `used` the tile columns of the marked pixels among the first `side` of row `y`, and
/// says whether there are any.
fn mark_columns(image: &Image, tile: usize, side: usize, y: usize, used: &mut Vec<bool>) -> (r:
    bool)
    requires
        image.wf(),
        0 < tile,
        side <= image.width,
        y < image.height,
        old(used)@.len() == tile,
    ensures
        final(used)@.len() == tile,
        forall|c: int|
            0 <= c < tile ==> #[trigger] final(used)@[c] == (old(used)@[c] || row_marks(
                image,
                tile as int,
                side as int,
                y as int,
                c,
            )),
        r == row_marked(image, side as int, y as int),
{
    let mut any: bool = false;
    let mut x: usize = 0;
    let ghost before = used@;
    while x < side
        invariant
            image.wf(),
            0 < tile,
            x <= side <= image.width,
            y < image.height,
            used@.len() == tile,
            before.len() == tile,
            forall|c: int|
                0 <= c < tile ==> #[trigger] used@[c] == (before[c] || row_marks(
                    image,
                    tile as int,
                    x as int,
                    y as int,
                    c,
                )),
            any == row_marked(image, x as int, y as int),
        decreases side - x,
    {
        let ghost here = used@;
        let column: usize = x % tile;
        if image.is_marked(x, y) {
            used.set(column, true);
            any = true;
        }
        proof {
            let m = image.marked(x as int, y as int);
            assert forall|c: int| 0 <= c < tile implies row_marks(
                image,
                tile as int,
                x as int + 1,
                y as int,
                c,
            ) == (row_marks(image, tile as int, x as int, y as int, c) || (m && column == c)) by {
                if row_marks(image, tile as int, x as int, y as int, c) {
                    let w = choose|w: int|
                        0 <= w < x && w % (tile as int) == c && #[trigger] image.marked(
                            w,
                            y as int,
                        );
                    assert(0 <= w < x + 1 && image.marked(w, y as int));
                }
            }
            assert(row_marked(image, x as int + 1, y as int) == (row_marked(
                image,
                x as int,
                y as int,
            ) || m)) by {
                if row_marked(image, x as int, y as int) {
                    let w = choose|w: int| 0 <= w < x && #[trigger] image.marked(w, y as int);
                    assert(0 <= w < x + 1 && image.marked(w, y as int));
                }
            }
        }
        x = x + 1;
    }
    any
}

/// The tile columns and tile rows that hold a marked pixel.
fn used_places(image: &Image, grid: usize, tile: usize) -> (r: (Vec<bool>, Vec<bool>))
    requires
        packable(image, grid as int),
        tile == tile_side(image.width as int, grid as int),
    ensures
        r.0@.len() == tile,
        r.1@.len() == tile,
        forall|c: int|
            0 <= c < tile ==> #[trigger] r.0@[c] == column_used(image, grid as int, c),
        forall|c: int| 0 <= c < tile ==> #[trigger] r.1@[c] == row_used(image, grid as int, c),
{
    proof {
        lemma_tiles_fit(image, grid as int);
    }
    let side: usize = grid * tile;
    let mut columns: Vec<bool> = vec![false; tile];
    let mut rows: Vec<bool> = vec![false; tile];
    let mut y: usize = 0;
    while y < side
        invariant
            image.wf(),
            side == grid * tile,
            side <= image.width,
            side <= image.height,
            y <= side,
            columns@.len() == tile,
            rows@.len() == tile,
            forall|c: int|
                0 <= c < tile ==> #[trigger] columns@[c] == (exists|v: int|
                    0 <= v < y && #[trigger] row_marks(image, tile as int, side as int, v, c)),
            forall|c: int|
                0 <= c < tile ==> #[trigger] rows@[c] == (exists|v: int|
                    0 <= v < y && v % (tile as int) == c && #[trigger] row_marked(
                        image,
                        side as int,
                        v,
                    )),
        decreases side - y,
    {
        assert(0 < tile) by (nonlinear_arith)
            requires
                y < side,
                side == grid * tile,
                0 <= y,
        ;
        let ghost columns_before = columns@;
        let ghost rows_before = rows@;
        let row: usize = y % tile;
        if mark_columns(image, tile, side, y, &mut columns) {
            rows.set(row, true);
        }
        proof {
            assert forall|c: int| 0 <= c < tile implies #[trigger] columns@[c] == (exists|v: int|
                0 <= v < y + 1 && #[trigger] row_marks(
                    image,
                    tile as int,
                    side as int,
                    v,
                    c,
                )) by {
                if columns_before[c] {
                    let v = choose|v: int|
                        0 <= v < y && #[trigger] row_marks(image, tile as int, side as int, v, c);
                    assert(0 <= v < y + 1 && row_marks(image, tile as int, side as int, v, c));
                }
                if row_marks(image, tile as int, side as int, y as int, c) {
                    assert(0 <= y < y + 1 && row_marks(
                        image,
                        tile as int,
                        side as int,
                        y as int,
                        c,
                    ));
                }
            }
            assert forall|c: int| 0 <= c < tile implies #[trigger] rows@[c] == (exists|v: int|
                0 <= v < y + 1 && v % (tile as int) == c && #[trigger] row_marked(
                    image,
                    side as int,
                    v,
                )) by {
                if rows_before[c] {
                    let v = choose|v: int|
                        0 <= v < y && v % (tile as int) == c && #[trigger] row_marked(
                            image,
                            side as int,
                            v,
                        );
                    assert(0 <= v < y + 1 && row_marked(image, side as int, v));
                }
                if row_marked(image, side as int, y as int) && row == c {
                    assert(0 <= y < y + 1 && row_marked(image, side as int, y as int));
                }
            }
        }
        y = y + 1;
    }
    proof {
        assert forall|c: int| 0 <= c < tile implies #[trigger] columns@[c] == column_used(
            image,
            grid as int,
            c,
        ) by {
            if columns@[c] {
                let v = choose|v: int|
                    0 <= v < side && #[trigger] row_marks(image, tile as int, side as int, v, c);
                let x = choose|x: int|
                    0 <= x < side && x % (tile as int) == c && #[trigger] image.marked(x, v);
                assert(image.marked(x, v));
            }
            if column_used(image, grid as int, c) {
                let (x, v) = choose|x: int, v: int|
                    0 <= x < grid * tile && 0 <= v < grid * tile && x % (tile as int) == c
                        && #[trigger] image.marked(x, v);
                assert(row_marks(image, tile as int, side as int, v, c));
            }
        }
        assert forall|c: int| 0 <= c < tile implies #[trigger] rows@[c] == row_used(
            image,
            grid as int,
            c,
        ) by {
            if rows@[c] {
                let v = choose|v: int|
                    0 <= v < side && v % (tile as int) == c && #[trigger] row_marked(
                        image,
                        side as int,
                        v,
                    );
                let x = choose|x: int| 0 <= x < side && #[trigger] image.marked(x, v);
                assert(image.marked(x, v));
            }
            if row_used(image, grid as int, c) {
                let (x, v) = choose|x: int, v: int|
                    0 <= x < grid * tile && 0 <= v < grid * tile && v % (tile as int) == c
                        && #[trigger] image.marked(x, v);
                assert(row_marked(image, side as int, v));
            }
        }
    }
    (columns, rows)
}

/// The tiles of a packable image lie inside it.
pub proof fn lemma_tiles_fit(image: &Image, grid: int)
    requires
        packable(image, grid),
    ensures
        ({
            let tile = tile_side(image.width as int, grid);
            &&& 0 <= tile <= image.width
            &&& 0 <= grid * tile <= image.width
        }),
{
    lemma_fundamental_div_mod(image.width as int, grid);
    lemma_div_is_ordered_by_denominator(image.width as int, 1, grid);
}

/// The shortest run of places that holds every used one: where it starts, and how many places
/// it has.
fn span(used: &Vec<bool>) -> (r: (usize, usize))
    ensures
        is_span(|i: int| used@[i], used@.len() as int, r.0 as int, r.1 as int),
{
    let ghost f = |i: int| used@[i];
    let limit: usize = used.len();
    let mut start: usize = 0;
    while start < limit && !used[start]
        invariant
            limit == used@.len(),
            start <= limit,
            forall|i: int| 0 <= i < start ==> !#[trigger] used@[i],
        decreases limit - start,
    {
        start = start + 1;
    }
    if start == limit {
        assert(!exists|i: int| 0 <= i < limit && #[trigger] f(i));
        return (0, 1);
    }
    assert(f(start as int));
    let mut end: usize = limit;
    while !used[end - 1]
        invariant
            limit == used@.len(),
            start < end <= limit,
            used@[start as int],
            forall|i: int| end <= i < limit ==> !#[trigger] used@[i],
        decreases end,
    {
        end = end - 1;
    }
    assert(f(end - 1));
    (start, end - start)
}

/// Spans agree when the places they speak of do.
proof fn lemma_span_same(
    f: spec_fn(int) -> bool,
    g: spec_fn(int) -> bool,
    limit: int,
    start: int,
    count: int,
)
    requires
        is_span(f, limit, start, count),
        forall|i: int| 0 <= i < limit ==> #[trigger] f(i) == g(i),
    ensures
        is_span(g, limit, start, count),
{
    if exists|i: int| 0 <= i < limit && #[trigger] f(i) {
        let i = choose|i: int| 0 <= i < limit && #[trigger] f(i);
        assert(g(i));
        assert forall|i: int| 0 <= i < limit && #[trigger] g(i) implies start <= i < start
            + count by {
            assert(f(i));
        }
    } else {
        assert forall|i: int| 0 <= i < limit implies !#[trigger] g(i) by {
            assert(!f(i));
        }
    }
}

/// A place of the packed image comes from a place of the tiled area, or from the first place
/// where the tiles are empty.
pub proof fn lemma_source_place(tile: int, grid: int, start: int, count: int, x: int)
    requires
        0 < grid,
        0 < count,
        0 <= start,
        0 <= x < count * grid,
        tile > 0 ==> start + count <= tile,
        tile == 0 ==> start == 0 && count == 1,
        0 <= tile,
    ensures
        0 <= x / count < grid,
        0 <= x % count < count,
        0 <= (x / count) * tile,
        0 <= source_place(tile, start, count, x),
        tile > 0 ==> source_place(tile, start, count, x) < grid * tile,
        tile > 0 ==> source_place(tile, start, count, x) % tile == start + x % count,
        tile == 0 ==> source_place(tile, start, count, x) == 0,
{
    lemma_fundamental_div_mod(x, count);
    let q = x / count;
    let m = x % count;
    assert(0 <= q < grid && 0 <= m < count) by (nonlinear_arith)
        requires
            x == count * q + m,
            0 <= m < count,
            0 <= x < count * grid,
    ;
    assert(0 <= q * tile && (tile > 0 ==> q * tile + tile <= grid * tile)) by (nonlinear_arith)
        requires
            0 <= q < grid,
            0 <= tile,
    ;
    if tile > 0 {
        lemma_fundamental_div_mod_converse(q * tile + start + m, tile, q, start + m);
    } else {
        assert(q * tile == 0) by (nonlinear_arith)
            requires
                tile == 0,
        ;
    }
}

/// Where the byte at `at` of the packed buffer comes from.
spec fn source_byte(
    width: int,
    tile: int,
    offset: UVec2,
    size: UVec2,
    packed_width: int,
    at: int,
) -> int {
    pixel_start(
        width,
        source_place(tile, offset.x as int, size.x as int, (at / 8) % packed_width),
        source_place(tile, offset.y as int, size.y as int, (at / 8) / packed_width),
    ) + at % 8
}

/// Copies the window of every tile, pixel after pixel.
fn copy_windows(image: &Image, grid: usize, tile: usize, offset: UVec2, size: UVec2) -> (r: Image)
    requires
        packable(image, grid as int),
        tile == tile_side(image.width as int, grid as int),
        0 < size.x,
        0 < size.y,
        tile > 0 ==> offset.x + size.x <= tile && offset.y + size.y <= tile,
        tile == 0 ==> offset.x == 0 && offset.y == 0 && size.x == 1 && size.y == 1,
    ensures
        is_window_of(&r, image, grid as int, offset, size),
{
    proof {
        lemma_tiles_fit(image, grid as int);
        lemma_packed_size(image, grid as int, size);
        assert(image.data.len() == image.data@.len());
    }
    let width: usize = image.width as usize;
    let columns: usize = size.x as usize;
    let rows: usize = size.y as usize;
    let packed_width: usize = columns * grid;
    let packed_height: usize = rows * grid;
    let total: usize = packed_width * packed_height;
    let mut data: Vec<u8> = Vec::new();
    let mut i: usize = 0;
    while i < total
        invariant
            packable(image, grid as int),
            tile == tile_side(image.width as int, grid as int),
            tile > 0 ==> offset.x + size.x <= tile && offset.y + size.y <= tile,
            tile == 0 ==> offset.x == 0 && offset.y == 0 && size.x == 1 && size.y == 1,
            0 <= grid * tile <= image.width,
            width == image.width,
            columns == size.x,
            rows == size.y,
            0 < columns,
            0 < rows,
            packed_width == columns * grid,
            packed_height == rows * grid,
            total == packed_width * packed_height,
            8 * total <= usize::MAX,
            i <= total,
            data@.len() == 8 * i,
            forall|k: int|
                0 <= k < data@.len() ==> #[trigger] data@[k] == image.data@[source_byte(
                    width as int,
                    tile as int,
                    offset,
                    size,
                    packed_width as int,
                    k,
                )],
        decreases total - i,
    {
        proof {
            lemma_fundamental_div_mod(i as int, packed_width as int);
            assert(0 < packed_width && 0 <= i as int / packed_width as int && (i as int
                / packed_width as int) < packed_height && 0 <= (i as int % packed_width as int)
                < packed_width) by (nonlinear_arith)
                requires
                    packed_width as int == columns * grid,
                    0 < columns,
                    0 < grid,
                    0 <= i < packed_width * packed_height,
            ;
            lemma_source_place(
                tile as int,
                grid as int,
                offset.x as int,
                size.x as int,
                i as int % packed_width as int,
            );
            lemma_source_place(
                tile as int,
                grid as int,
                offset.y as int,
                size.y as int,
                i as int / packed_width as int,
            );
        }
        let x: usize = i % packed_width;
        let y: usize = i / packed_width;
        assert(0 <= source_place(tile as int, offset.x as int, size.x as int, x as int) < width);
        assert(0 <= source_place(tile as int, offset.y as int, size.y as int, y as int)
            < image.height);
        let source_x: usize = (x / columns) * tile + offset.x as usize + x % columns;
        let source_y: usize = (y / rows) * tile + offset.y as usize + y % rows;
        proof {
            lemma_pixel_in_bounds(
                width as int,
                image.height as int,
                source_x as int,
                source_y as int,
            );
            assert(image.data.len() == image.data@.len());
        }
        let from: usize = (source_y * width + source_x) * 8;
        let ghost before = data@;
        let mut b: usize = 0;
        while b < 8
            invariant
                b <= 8,
                from + 8 <= image.data@.len() <= usize::MAX,
                before.len() == 8 * i,
                data@.len() == 8 * i + b,
                forall|k: int| 0 <= k < 8 * i ==> #[trigger] data@[k] == before[k],
                forall|k: int|
                    8 * i <= k < 8 * i + b ==> #[trigger] data@[k] == image.data@[from + k - 8 * i],
            decreases 8 - b,
        {
            data.push(image.data[from + b]);
            b = b + 1;
        }
        proof {
            assert forall|k: int| 0 <= k < data@.len() implies #[trigger] data@[k]
                == image.data@[source_byte(
                width as int,
                tile as int,
                offset,
                size,
                packed_width as int,
                k,
            )] by {
                if k < 8 * i {
                    assert(data@[k] == before[k]);
                } else {
                    assert(k / 8 == i && k % 8 == k - 8 * i);
                }
            }
        }
        i = i + 1;
    }
    let packed: Image = Image { width: packed_width as u32, height: packed_height as u32, data };
    proof {
        assert(packed.wf());
        assert forall|x: int, y: int|
            0 <= x < packed.width && 0 <= y < packed.height implies #[trigger] packed.pixel(x, y)
            == image.pixel(
            source_place(tile as int, offset.x as int, size.x as int, x),
            source_place(tile as int, offset.y as int, size.y as int, y),
        ) by {
            lemma_pixel_in_bounds(packed.width as int, packed.height as int, x, y);
            lemma_fundamental_div_mod_converse(
                y * packed_width + x,
                packed_width as int,
                y,
                x,
            );
            let sx = source_place(tile as int, offset.x as int, size.x as int, x);
            let sy = source_place(tile as int, offset.y as int, size.y as int, y);
            lemma_source_place(tile as int, grid as int, offset.x as int, size.x as int, x);
            lemma_source_place(tile as int, grid as int, offset.y as int, size.y as int, y);
            lemma_pixel_in_bounds(width as int, image.height as int, sx, sy);
            let at = pixel_start(packed_width as int, x, y);
            assert forall|b: int| 0 <= b < 8 implies #[trigger] packed.pixel(x, y)[b]
                == image.pixel(sx, sy)[b] by {
                assert((at + b) / 8 == y * packed_width + x && (at + b) % 8 == b);
            }
            assert(packed.pixel(x, y) =~= image.pixel(sx, sy));
        }
    }
    packed
}

/// The packed image has dimensions that can be represented, and a buffer that can be addressed.
proof fn lemma_packed_size(image: &Image, grid: int, size: UVec2)
    requires
        packable(image, grid),
        0 < size.x,
        0 < size.y,
        ({
            let tile = tile_side(image.width as int, grid);
            &&& tile > 0 ==> size.x <= tile && size.y <= tile
            &&& tile == 0 ==> size.x == 1 && size.y == 1
        }),
    ensures
        0 < size.x * grid <= u32::MAX,
        0 < size.y * grid <= u32::MAX,
        0 < 8 * ((size.x * grid) * (size.y * grid)) <= usize::MAX,
{
    let tile = tile_side(image.width as int, grid);
    lemma_tiles_fit(image, grid);
    let w = size.x * grid;
    let h = size.y * grid;
    assert(0 < w && 0 < h && 0 < w * h) by (nonlinear_arith)
        requires
            w == size.x * grid,
            h == size.y * grid,
            0 < size.x,
            0 < size.y,
            0 < grid,
    ;
    if tile > 0 {
        assert(w <= grid * tile && h <= grid * tile) by (nonlinear_arith)
            requires
                w == size.x * grid,
                h == size.y * grid,
                size.x <= tile,
                size.y <= tile,
                0 < grid,
        ;
        assert(w * h <= image.width * image.height) by (nonlinear_arith)
            requires
                0 < w <= image.width,
                0 < h <= image.height,
        ;
        assert(image.data.len() == image.data@.len());
    } else {
        assert(w == grid && h == grid);
        assert(grid < 0x8000_0000) by (nonlinear_arith)
            requires
                0 < grid,
                8 * (grid * grid) <= isize::MAX,
                isize::MAX <= 0x7fff_ffff_ffff_ffff,
        ;
    }
}

/// Whether an image can be packed.
pub fn can_pack(grid_size: usize, image: &Image) -> (r: bool)
    ensures
        r == packable(image, grid_size as int),
        r == (image.data@.len() == 8 * (image.width * image.height) && grid_size > 0 && image.width
            > 0 && image.height > 0 && grid_size * (image.width as int / grid_size as int)
            <= image.height && (image.width < grid_size ==> 8 * (grid_size * grid_size)
            <= isize::MAX)),
{
    if !image.is_complete() || grid_size == 0 || image.width == 0 || image.height == 0 {
        return false;
    }
    let tile: usize = image.width as usize / grid_size;
    proof {
        lemma_fundamental_div_mod(image.width as int, grid_size as int);
        assert((tile == 0) == (image.width < grid_size)) by (nonlinear_arith)
            requires
                image.width == grid_size * tile + image.width as int % grid_size as int,
                0 <= image.width as int % (grid_size as int) < grid_size,
                0 <= tile,
        ;
    }
    if tile == 0 {
        let grid: u128 = grid_size as u128;
        assert(grid_size * grid_size <= 0xffff_ffff_ffff_ffff * 0xffff_ffff_ffff_ffff)
            by (nonlinear_arith)
            requires
                grid_size <= 0xffff_ffff_ffff_ffff,
        ;
        let tiles: u128 = grid * grid;
        assert(grid_size * tile == 0) by (nonlinear_arith)
            requires
                tile == 0,
        ;
        tiles <= isize::MAX as u128 / 8
    } else {
        assert(0 <= grid_size * tile <= image.width) by (nonlinear_arith)
            requires
                image.width == grid_size * tile + image.width as int % grid_size as int,
                0 <= image.width as int % grid_size as int,
                0 <= grid_size,
                0 <= tile,
        ;
        grid_size * tile <= image.height as usize
    }
}

/// Trims the blank edges of the tiles of an atlas of `grid_size` by `grid_size` tiles.
///
/// Gives the packed atlas, and the offset and size of the window that was kept of every tile. The
/// window is the least that holds every marked pixel of every tile.
pub fn pack_asset(grid_size: usize, image: &Image) -> (r: (Image, UVec2, UVec2))
    requires
        packable(image, grid_size as int),
    ensures
        is_packed(&r.0, image, grid_size as int, r.1, r.2),
{
    let tile: usize = image.width as usize / grid_size;
    proof {
        lemma_tiles_fit(image, grid_size as int);
    }
    let (columns, rows) = used_places(image, grid_size, tile);
    let (x_start, x_count) = span(&columns);
    let (y_start, y_count) = span(&rows);
    proof {
        let used_columns = |i: int| columns@[i];
        let used_rows = |i: int| rows@[i];
        let wanted_columns = |i: int| column_used(image, grid_size as int, i);
        let wanted_rows = |i: int| row_used(image, grid_size as int, i);
        assert forall|i: int| 0 <= i < tile implies #[trigger] used_columns(i)
            == wanted_columns(i) by {
            assert(columns@[i] == column_used(image, grid_size as int, i));
        }
        assert forall|i: int| 0 <= i < tile implies #[trigger] used_rows(i) == wanted_rows(i) by {
            assert(rows@[i] == row_used(image, grid_size as int, i));
        }
        lemma_span_same(
            used_columns,
            wanted_columns,
            tile as int,
            x_start as int,
            x_count as int,
        );
        lemma_span_same(used_rows, wanted_rows, tile as int, y_start as int, y_count as int);
    }
    let offset: UVec2 = UVec2 { x: x_start as u32, y: y_start as u32 };
    let size: UVec2 = UVec2 { x: x_count as u32, y: y_count as u32 };
    let packed: Image = copy_windows(image, grid_size, tile, offset, size);
    (packed, offset, size)
}

} // verus!
