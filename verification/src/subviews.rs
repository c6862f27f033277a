//! The views of the tiles of an atlas, kept from frame to frame while a camera does not change.
use std::collections::BTreeMap;

use vstd::arithmetic::div_mod::lemma_fundamental_div_mod_converse;
use vstd::prelude::*;
use vstd::std_specs::iter::IteratorSpec;

use crate::math::{lemma_increasing, UVec2};
use crate::progress::BakeState;

verus! {

/// The view of a tile: its column and row, and the number of its entity.
#[derive(Clone, Copy, Debug, PartialEq, Eq, Structural)]
pub struct Subview {
    pub x: u32,
    pub y: u32,
    pub entity: u64,
}

/// Whether a camera is drawn in this frame: it is rendering, and no report of it is waiting.
pub open spec fn is_extracted(state: BakeState, reports_waiting: bool) -> bool {
    state == BakeState::Rendering && !reports_waiting
}

/// Whether a camera is drawn in this frame.
pub fn should_extract(state: BakeState, reports_waiting: bool) -> (r: bool)
    ensures
        r == is_extracted(state, reports_waiting),
        r == (state is Rendering && !reports_waiting),
{
    state == BakeState::Rendering && !reports_waiting
}

/// The tiles of a grid, row after row.
pub open spec fn grid_tiles(grid_size: int) -> Seq<UVec2> {
    Seq::new(
        (grid_size * grid_size) as nat,
        |i: int| UVec2 { x: (i % grid_size) as u32, y: (i / grid_size) as u32 },
    )
}

/// The tiles of a grid, row after row: the tile of column `x` and row `y` has the number
/// `y * grid_size + x`.
pub fn tiles_of_grid(grid_size: u32) -> (r: Vec<UVec2>)
    requires
        grid_size * grid_size <= u32::MAX,
    ensures
        r@ == grid_tiles(grid_size as int),
        r@.len() == grid_size * grid_size,
        forall|x: int, y: int|
            0 <= x < grid_size && 0 <= y < grid_size ==> (#[trigger] r@[y * grid_size + x]).x == x
                && r@[y * grid_size + x].y == y,
{
    let mut tiles: Vec<UVec2> = Vec::new();
    let mut y: u32 = 0;
    while y < grid_size
        invariant
            y <= grid_size,
            tiles@.len() == y * grid_size,
            forall|i: int|
                0 <= i < tiles@.len() ==> #[trigger] tiles@[i] == (UVec2 {
                    x: (i % (grid_size as int)) as u32,
                    y: (i / (grid_size as int)) as u32,
                }),
        decreases grid_size - y,
    {
        let mut x: u32 = 0;
        while x < grid_size
            invariant
                x <= grid_size,
                y < grid_size,
                tiles@.len() == y * grid_size + x,
                forall|i: int|
                    0 <= i < tiles@.len() ==> #[trigger] tiles@[i] == (UVec2 {
                        x: (i % (grid_size as int)) as u32,
                        y: (i / (grid_size as int)) as u32,
                    }),
            decreases grid_size - x,
        {
            proof {
                lemma_fundamental_div_mod_converse(
                    y * grid_size + x,
                    grid_size as int,
                    y as int,
                    x as int,
                );
            }
            tiles.push(UVec2 { x, y });
            x = x + 1;
        }
        assert((y + 1) * grid_size == y * grid_size + grid_size) by (nonlinear_arith);
        y = y + 1;
    }
    assert(tiles@ =~= grid_tiles(grid_size as int));
    proof {
        law_tiles_row_after_row(grid_size as int);
    }
    tiles
}

/// The tiles of a grid are as many as its square, and stand row after row: the tile of column `x`
/// and row `y` is the one of that column and row.
pub proof fn law_tiles_row_after_row(grid_size: int)
    requires
        0 <= grid_size <= u32::MAX,
    ensures
        grid_tiles(grid_size).len() == grid_size * grid_size,
        forall|x: int, y: int|
            0 <= x < grid_size && 0 <= y < grid_size ==> (#[trigger] grid_tiles(grid_size)[y
                * grid_size + x]).x == x && grid_tiles(grid_size)[y * grid_size + x].y == y,
{
    assert(0 <= grid_size * grid_size) by (nonlinear_arith)
        requires
            0 <= grid_size,
    ;
    assert forall|x: int, y: int| 0 <= x < grid_size && 0 <= y < grid_size implies (
    #[trigger] grid_tiles(grid_size)[y * grid_size + x]).x == x && grid_tiles(grid_size)[y
        * grid_size + x].y == y by {
        assert(0 <= y * grid_size && y * grid_size + grid_size <= grid_size * grid_size)
            by (nonlinear_arith)
            requires
                0 <= y < grid_size,
        ;
        lemma_fundamental_div_mod_converse(y * grid_size + x, grid_size, y, x);
    }
}

/// The number of the view of a tile among the views of its camera.
pub fn subview_index(grid_size: u32, tile: UVec2) -> (r: u32)
    requires
        grid_size * grid_size <= u32::MAX,
        tile.x < grid_size,
        tile.y < grid_size,
    ensures
        r == tile.y * grid_size + tile.x,
        r < grid_size * grid_size,
        grid_tiles(grid_size as int)[r as int] == tile,
{
    assert(tile.y * grid_size + grid_size <= grid_size * grid_size) by (nonlinear_arith)
        requires
            tile.y < grid_size,
    ;
    proof {
        lemma_fundamental_div_mod_converse(
            tile.y * grid_size + tile.x,
            grid_size as int,
            tile.y as int,
            tile.x as int,
        );
    }
    tile.y * grid_size + tile.x
}

/// The views of the tiles of a grid, where `entities` are the numbers of their entities.
pub open spec fn subviews_of(grid_size: int, entities: Seq<u64>) -> Seq<Subview> {
    Seq::new(
        (grid_size * grid_size) as nat,
        |i: int|
            Subview {
                x: grid_tiles(grid_size)[i].x,
                y: grid_tiles(grid_size)[i].y,
                entity: entities[i],
            },
    )
}

/// The views of a grid stand row after row, as its tiles do, each with the entity of its number.
pub proof fn law_views_row_after_row(grid_size: int, entities: Seq<u64>)
    requires
        0 <= grid_size <= u32::MAX,
    ensures
        subviews_of(grid_size, entities).len() == grid_size * grid_size,
        forall|x: int, y: int|
            0 <= x < grid_size && 0 <= y < grid_size ==> (#[trigger] subviews_of(
                grid_size,
                entities,
            )[y * grid_size + x]).x == x && subviews_of(grid_size, entities)[y * grid_size + x].y
                == y && subviews_of(grid_size, entities)[y * grid_size + x].entity == entities[y
                * grid_size + x],
{
    law_tiles_row_after_row(grid_size);
    let views = subviews_of(grid_size, entities);
    assert forall|x: int, y: int| 0 <= x < grid_size && 0 <= y < grid_size implies (
    #[trigger] views[y * grid_size + x]).x == x && views[y * grid_size + x].y == y && views[y
        * grid_size + x].entity == entities[y * grid_size + x] by {
        assert(0 <= y * grid_size && y * grid_size + grid_size <= grid_size * grid_size)
            by (nonlinear_arith)
            requires
                0 <= y < grid_size,
        ;
        assert(grid_tiles(grid_size)[y * grid_size + x].x == x);
    }
}

/// The views of the tiles of a grid, where `entities` are the numbers of their entities.
pub fn number_subviews(grid_size: u32, entities: &Vec<u64>) -> (r: Vec<Subview>)
    requires
        grid_size * grid_size <= u32::MAX,
        entities@.len() == grid_size * grid_size,
    ensures
        r@ == subviews_of(grid_size as int, entities@),
        r@.len() == grid_size * grid_size,
        forall|x: int, y: int|
            0 <= x < grid_size && 0 <= y < grid_size ==> (#[trigger] r@[y * grid_size + x]).x == x
                && r@[y * grid_size + x].y == y && r@[y * grid_size + x].entity == entities@[y
                * grid_size + x],
{
    let tiles = tiles_of_grid(grid_size);
    let mut r: Vec<Subview> = Vec::new();
    let mut i: usize = 0;
    while i < tiles.len()
        invariant
            i <= tiles@.len(),
            tiles@ == grid_tiles(grid_size as int),
            tiles@.len() == grid_size * grid_size,
            entities@.len() == grid_size * grid_size,
            r@ == subviews_of(grid_size as int, entities@).take(i as int),
        decreases tiles@.len() - i,
    {
        r.push(Subview { x: tiles[i].x, y: tiles[i].y, entity: entities[i] });
        assert(r@ =~= subviews_of(grid_size as int, entities@).take(i + 1));
        i = i + 1;
    }
    assert(r@ =~= subviews_of(grid_size as int, entities@));
    proof {
        law_views_row_after_row(grid_size as int, entities@);
    }
    r
}

/// Views by the number of their camera: those of the frame before that were not taken over yet,
/// and those of this frame.
#[derive(Debug)]
pub struct SubviewCache {
    earlier: BTreeMap<u64, Vec<Subview>>,
    current: BTreeMap<u64, Vec<Subview>>,
}

/// The views in a map.
pub open spec fn views_in(map: Map<u64, Vec<Subview>>) -> Map<u64, Seq<Subview>> {
    map.map_values(|subviews: Vec<Subview>| subviews@)
}

impl SubviewCache {
    /// The views of the frame before that were not taken over.
    pub closed spec fn earlier(self) -> Map<u64, Seq<Subview>> {
        views_in(self.earlier@)
    }

    /// The views of this frame.
    pub closed spec fn current(self) -> Map<u64, Seq<Subview>> {
        views_in(self.current@)
    }

    /// No views yet.
    pub fn new() -> (r: Self)
        ensures
            r.earlier() == Map::<u64, Seq<Subview>>::empty(),
            r.current() == Map::<u64, Seq<Subview>>::empty(),
    {
        let r = SubviewCache { earlier: BTreeMap::new(), current: BTreeMap::new() };
        assert(r.earlier() =~= Map::<u64, Seq<Subview>>::empty());
        assert(r.current() =~= Map::<u64, Seq<Subview>>::empty());
        r
    }

    /// Whether no frame is under way: nothing of a frame before is left to be taken over.
    pub fn is_between_frames(&self) -> (r: bool)
        ensures
            r == (self.earlier() == Map::<u64, Seq<Subview>>::empty()),
    {
        let r: bool = self.earlier.is_empty();
        proof {
            if r {
                assert(self.earlier() =~= Map::<u64, Seq<Subview>>::empty());
            } else {
                let camera = choose|camera: u64| self.earlier@.contains_key(camera);
                assert(self.earlier().contains_key(camera));
            }
        }
        r
    }

    /// Starts a frame: the views of this frame become those of the frame before.
    pub fn begin_frame(&mut self)
        requires
            old(self).earlier() == Map::<u64, Seq<Subview>>::empty(),
        ensures
            final(self).earlier() == old(self).current(),
            final(self).current() == Map::<u64, Seq<Subview>>::empty(),
    {
        self.earlier = BTreeMap::new();
        std::mem::swap(&mut self.earlier, &mut self.current);
        assert(self.current() =~= Map::<u64, Seq<Subview>>::empty());
    }

    /// Takes the views of a camera out of those of the frame before, unless it changed.
    fn take_over(&mut self, camera: u64, changed: bool) -> (r: Option<Vec<Subview>>)
        ensures
            final(self).current() == old(self).current(),
            r is Some <==> !changed && old(self).earlier().contains_key(camera),
            r matches Some(subviews) ==> subviews@ == old(self).earlier()[camera],
            r is Some ==> final(self).earlier() == old(self).earlier().remove(camera),
            r is None ==> final(self).earlier() == old(self).earlier(),
    {
        if changed {
            return None;
        }
        let r = self.earlier.remove(&camera);
        proof {
            if r is Some {
                assert(self.earlier() =~= old(self).earlier().remove(camera));
            } else {
                assert(self.earlier() =~= old(self).earlier());
            }
        }
        r
    }

    /// Keeps the views of a camera for the next frame.
    pub fn keep(&mut self, camera: u64, subviews: Vec<Subview>)
        ensures
            final(self).earlier() == old(self).earlier(),
            final(self).current() == old(self).current().insert(camera, subviews@),
    {
        let ghost kept = subviews@;
        self.current.insert(camera, subviews);
        assert(self.current() =~= old(self).current().insert(camera, kept));
    }

    /// The views of a camera that did not change are kept from the frame before, and handed out.
    pub fn reuse(&mut self, camera: u64, changed: bool) -> (r: Option<Vec<Subview>>)
        ensures
            r is Some <==> !changed && old(self).earlier().contains_key(camera),
            r matches Some(subviews) ==> subviews@ == old(self).earlier()[camera] && final(
                self
            ).earlier() == old(self).earlier().remove(camera) && final(self).current() == old(
                self
            ).current().insert(camera, subviews@),
            r is None ==> final(self).earlier() == old(self).earlier() && final(self).current()
                == old(self).current(),
    {
        match self.take_over(camera, changed) {
            Some(subviews) => {
                let copy = copy_subviews(&subviews);
                self.keep(camera, subviews);
                Some(copy)
            },
            None => None,
        }
    }

    /// Ends a frame: gives the entities of the views that were not taken over, which nothing
    /// refers to any longer. Where no two of those views have one entity, each comes once.
    pub fn end_frame(&mut self) -> (r: Vec<u64>)
        ensures
            final(self).earlier() == Map::<u64, Seq<Subview>>::empty(),
            final(self).current() == old(self).current(),
            forall|entity: u64| #[trigger]
                r@.contains(entity) <==> holds_entity(old(self).earlier(), entity),
            entities_distinct(old(self).earlier()) ==> r@.no_duplicates(),
            (forall|a: u64, i: int, b: u64, j: int|
                old(self).earlier().contains_key(a) && 0 <= i < old(self).earlier()[a].len() && old(
                    self
                ).earlier().contains_key(b) && 0 <= j < old(self).earlier()[b].len() && (
                #[trigger] old(self).earlier()[a][i]).entity == (
                #[trigger] old(self).earlier()[b][j]).entity ==> a == b && i == j)
                ==> r@.no_duplicates(),
            forall|camera: u64, i: int|
                old(self).earlier().contains_key(camera) && 0 <= i < old(
                    self
                ).earlier()[camera].len() ==> r@.contains(
                    (#[trigger] old(self).earlier()[camera][i]).entity,
                ),
            forall|entity: u64| #[trigger]
                r@.contains(entity) ==> exists|camera: u64, i: int|
                    old(self).earlier().contains_key(camera) && 0 <= i < old(
                        self
                    ).earlier()[camera].len() && (#[trigger] old(self).earlier()[camera][i]).entity
                        == entity,
    {
        let mut r: Vec<u64> = Vec::new();
        let iter = self.earlier.iter();
        let ghost entries = iter.remaining();
        let ghost keys = entries.map_values(|kv: (&u64, &Vec<Subview>)| *kv.0);
        let ghost given = self.earlier();
        proof {
            lemma_increasing(keys);
        }
        // Where each entity comes from: the number of the camera, and that of the view.
        let ghost mut from: Seq<(int, int)> = Seq::empty();
        for (camera, subviews) in it: iter
            invariant
                it.seq() == entries,
                from.len() == r@.len(),
                from.no_duplicates(),
                forall|p: int|
                    0 <= p < from.len() ==> 0 <= (#[trigger] from[p]).0 < it.index() && 0
                        <= from[p].1 < entries[from[p].0].1@.len() && r@[p]
                        == entries[from[p].0].1@[from[p].1].entity,
                forall|k: int, i: int|
                    0 <= k < it.index() && 0 <= i < entries[k].1@.len() ==> #[trigger] r@.contains(
                        entries[k].1@[i].entity,
                    ),
        {
            let ghost before = r@;
            let ghost from_before = from;
            let ghost n = it.index() as int;
            push_entities(&mut r, subviews);
            proof {
                let added = Seq::new(subviews@.len(), |i: int| (n, i));
                from = from + added;
                assert forall|k: int, i: int|
                    0 <= k < n + 1 && 0 <= i < entries[k].1@.len() implies #[trigger] r@.contains(
                    entries[k].1@[i].entity,
                ) by {
                    let entity = entries[k].1@[i].entity;
                    if k < n {
                        assert(before.contains(entity));
                        let p = choose|p: int| 0 <= p < before.len() && before[p] == entity;
                        assert(r@[p] == entity);
                    } else {
                        assert(r@[before.len() + i] == entity);
                    }
                }
            }
        }
        proof {
            assert forall|entity: u64| #[trigger] r@.contains(entity) <==> holds_entity(
                given,
                entity,
            ) by {
                if r@.contains(entity) {
                    let p = choose|p: int| 0 <= p < r@.len() && r@[p] == entity;
                    let (k, i) = from[p];
                    let camera = *entries[k].0;
                    assert(self.earlier@.contains_key(camera));
                    assert(given[camera][i].entity == entity);
                }
                if holds_entity(given, entity) {
                    let (camera, i) = choose|camera: u64, i: int|
                        given.contains_key(camera) && 0 <= i < given[camera].len() && (
                        #[trigger] given[camera][i]).entity == entity;
                    assert(self.earlier@.contains_key(camera));
                    let k = choose|k: int|
                        0 <= k < entries.len() && entries[k] == (&camera, &self.earlier@[camera]);
                    assert(entries[k].1@[i].entity == entity);
                }
            }
            if entities_distinct(given) {
                assert forall|p: int, q: int|
                    0 <= p < q < r@.len() implies r@[p] != r@[q] by {
                    let (k, i) = from[p];
                    let (l, j) = from[q];
                    assert(from[p] != from[q]);
                    assert(self.earlier@.contains_key(*entries[k].0));
                    assert(self.earlier@.contains_key(*entries[l].0));
                    assert(given[keys[k]][i].entity == r@[p]);
                    assert(given[keys[l]][j].entity == r@[q]);
                }
            }
        }
        self.earlier = BTreeMap::new();
        assert(self.earlier() =~= Map::<u64, Seq<Subview>>::empty());
        r
    }
}

/// The same views once more.
pub fn copy_subviews(subviews: &Vec<Subview>) -> (r: Vec<Subview>)
    ensures
        r@ == subviews@,
{
    let mut r: Vec<Subview> = Vec::new();
    let mut i: usize = 0;
    while i < subviews.len()
        invariant
            i <= subviews@.len(),
            r@ == subviews@.take(i as int),
        decreases subviews@.len() - i,
    {
        r.push(subviews[i]);
        assert(r@ =~= subviews@.take(i + 1));
        i = i + 1;
    }
    assert(r@ =~= subviews@);
    r
}

/// Whether some view in a map has this entity.
pub open spec fn holds_entity(map: Map<u64, Seq<Subview>>, entity: u64) -> bool {
    exists|camera: u64, i: int|
        map.contains_key(camera) && 0 <= i < map[camera].len() && (#[trigger] map[camera][i]).entity
            == entity
}

/// No two views in a map have one entity.
pub open spec fn entities_distinct(map: Map<u64, Seq<Subview>>) -> bool {
    forall|a: u64, i: int, b: u64, j: int|
        map.contains_key(a) && 0 <= i < map[a].len() && map.contains_key(b) && 0 <= j
            < map[b].len() && (#[trigger] map[a][i]).entity == (#[trigger] map[b][j]).entity ==> a
            == b && i == j
}

/// Appends the entities of views.
fn push_entities(out: &mut Vec<u64>, subviews: &Vec<Subview>)
    ensures
        final(out)@.len() == old(out)@.len() + subviews@.len(),
        forall|i: int| 0 <= i < old(out)@.len() ==> #[trigger] final(out)@[i] == old(out)@[i],
        forall|i: int|
            old(out)@.len() <= i < final(out)@.len() ==> #[trigger] final(out)@[i] == subviews@[i
                - old(out)@.len()].entity,
{
    let ghost given = out@;
    let mut n: usize = 0;
    while n < subviews.len()
        invariant
            n <= subviews@.len(),
            out@.len() == given.len() + n,
            forall|i: int| 0 <= i < given.len() ==> #[trigger] out@[i] == given[i],
            forall|i: int|
                given.len() <= i < out@.len() ==> #[trigger] out@[i] == subviews@[i
                    - given.len()].entity,
        decreases subviews@.len() - n,
    {
        out.push(subviews[n].entity);
        n = n + 1;
    }
}

/// No two tiles of a grid have views of one number.
pub proof fn law_views_are_told_apart(grid_size: u32, a: UVec2, b: UVec2, at_a: u32, at_b: u32)
    requires
        a.x < grid_size,
        a.y < grid_size,
        b.x < grid_size,
        b.y < grid_size,
        call_ensures(subview_index, (grid_size, a), at_a),
        call_ensures(subview_index, (grid_size, b), at_b),
    ensures
        at_a < grid_size * grid_size,
        at_a == at_b ==> a == b,
        a.y == b.y && b.x == a.x + 1 ==> at_b == at_a + 1,
        a.y < b.y ==> at_a < at_b,
{
    if a.y < b.y {
        assert((a.y + 1) * grid_size <= b.y * grid_size) by (nonlinear_arith)
            requires
                a.y + 1 <= b.y,
                0 <= grid_size,
        ;
        assert((a.y + 1) * grid_size == a.y * grid_size + grid_size) by (nonlinear_arith);
    }
    if b.y < a.y {
        assert((b.y + 1) * grid_size <= a.y * grid_size) by (nonlinear_arith)
            requires
                b.y + 1 <= a.y,
                0 <= grid_size,
        ;
        assert((b.y + 1) * grid_size == b.y * grid_size + grid_size) by (nonlinear_arith);
    }
}

} // verus!
