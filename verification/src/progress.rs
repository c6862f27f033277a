//! How a bake goes on from frame to frame, a few tiles at a time.
use std::collections::BTreeMap;

use vstd::prelude::*;

use crate::readback::{aligned, aligned_size, get_aligned_size, row_alignment};

verus! {

/// Where a bake stands.
#[derive(Clone, Copy, Debug, PartialEq, Eq, Structural)]
pub enum BakeState {
    Rendering,
    RunningCallback,
    Finished,
}

/// What a frame of a bake depends on.
#[derive(Clone, Copy, Debug, PartialEq, Eq, Structural)]
pub struct BakeSettings {
    /// Tiles of the atlas.
    pub tiles: usize,
    /// Samples in each direction; with one, tiles are drawn straight into the atlas.
    pub multisample: u32,
    /// Tiles drawn in one frame at most.
    pub max_tiles: usize,
    /// Items that the first tile must show.
    pub expected_count: usize,
    /// Whether the bake waits until the first tile shows them all.
    pub wait_for_render: bool,
}

impl BakeSettings {
    /// Whether tiles are drawn straight into the atlas.
    pub open spec fn single(self) -> bool {
        self.multisample == 1
    }
}

/// What came of drawing a tile.
#[derive(Clone, Copy, Debug, PartialEq, Eq, Structural)]
pub struct DrawOutcome {
    /// Whether every phase was drawn without an error.
    pub ok: bool,
    /// How many items have been drawn in this frame so far.
    pub actual_count: usize,
}

/// Whether a first tile with this outcome lets the bake go on.
pub open spec fn is_ready(settings: BakeSettings, outcome: DrawOutcome) -> bool {
    !settings.wait_for_render || (outcome.ok && outcome.actual_count == settings.expected_count)
}

/// What is to be done next in a frame.
#[derive(Clone, Copy, Debug, PartialEq, Eq, Structural)]
pub enum BakeAction {
    /// Draw the first tile, to see whether everything is ready.
    Probe,
    /// Draw the tile of this number.
    Draw(usize),
    /// Nothing more in this frame.
    Done,
}

/// A frame of a bake.
#[derive(Clone, Copy, Debug, PartialEq, Eq, Structural)]
pub struct BakeFrame {
    /// Tiles that are done.
    pub rendered: usize,
    /// Tiles that are done when this frame ends, if nothing stops it.
    pub limit: usize,
    /// Whether the first tile is still to be probed.
    pub probing: bool,
}

/// How many tiles are done after `more` further ones.
pub open spec fn tiles_after(rendered: int, more: int, tiles: int) -> int {
    if rendered >= tiles {
        rendered
    } else if rendered + more >= tiles {
        tiles
    } else {
        rendered + more
    }
}

/// How many tiles are done after `more` further ones.
fn count_after(rendered: usize, more: usize, tiles: usize) -> (r: usize)
    ensures
        r == tiles_after(rendered as int, more as int, tiles as int),
{
    if rendered >= tiles {
        rendered
    } else if more >= tiles - rendered {
        tiles
    } else {
        rendered + more
    }
}

impl BakeFrame {
    /// A frame in which something may still be done has not reached its limit.
    pub open spec fn wf(self, settings: BakeSettings) -> bool {
        &&& self.rendered <= self.limit
        &&& self.limit <= settings.tiles || self.limit == self.rendered
        &&& self.probing ==> settings.single() && self.rendered == 0 && 0 < self.limit
    }

    /// The start of a frame, with `rendered` tiles done in earlier ones. The probe is the first
    /// of the tiles that the frame may draw.
    pub open spec fn started(rendered: usize, settings: BakeSettings) -> Self {
        let limit = tiles_after(rendered as int, settings.max_tiles as int, settings.tiles as int);
        BakeFrame {
            rendered,
            limit: limit as usize,
            probing: settings.single() && rendered == 0 && 0 < limit,
        }
    }

    /// Starts a frame, with `rendered` tiles done in earlier ones.
    pub fn start(rendered: usize, settings: &BakeSettings) -> (r: Self)
        requires
            settings.single() ==> 0 < settings.tiles,
        ensures
            r == Self::started(rendered, *settings),
            r.wf(*settings),
            r.rendered == rendered,
            rendered >= settings.tiles ==> r.limit == rendered,
            rendered < settings.tiles && settings.max_tiles >= settings.tiles - rendered ==> r.limit
                == settings.tiles,
            rendered < settings.tiles && settings.max_tiles < settings.tiles - rendered ==> r.limit
                == rendered + settings.max_tiles,
            r.probing == (settings.multisample == 1 && rendered == 0 && 0 < r.limit),
    {
        let limit: usize = count_after(rendered, settings.max_tiles, settings.tiles);
        BakeFrame {
            rendered,
            limit,
            probing: settings.multisample == 1 && rendered == 0 && 0 < limit,
        }
    }

    /// What is to be done next.
    pub open spec fn next(self) -> BakeAction {
        if self.probing {
            BakeAction::Probe
        } else if self.rendered < self.limit {
            BakeAction::Draw(self.rendered)
        } else {
            BakeAction::Done
        }
    }

    /// What is to be done next.
    pub fn next_action(&self) -> (r: BakeAction)
        ensures
            r == self.next(),
            self.probing ==> r == BakeAction::Probe,
            !self.probing && self.rendered < self.limit ==> r == BakeAction::Draw(self.rendered),
            !self.probing && self.rendered >= self.limit ==> r == BakeAction::Done,
    {
        if self.probing {
            BakeAction::Probe
        } else if self.rendered < self.limit {
            BakeAction::Draw(self.rendered)
        } else {
            BakeAction::Done
        }
    }

    /// Whether a tile drawn with this outcome counts. Only the first tile of a bake is judged:
    /// the probe, or the first tile where there is no probe.
    pub open spec fn accepts(self, settings: BakeSettings, outcome: DrawOutcome) -> bool {
        self.rendered > 0 || is_ready(settings, outcome)
    }

    /// The frame after the next action was done with this outcome.
    pub open spec fn advanced(self, settings: BakeSettings, outcome: DrawOutcome) -> Self {
        if self.next() is Done {
            self
        } else if self.accepts(settings, outcome) {
            BakeFrame { rendered: (self.rendered + 1) as usize, limit: self.limit, probing: false }
        } else {
            BakeFrame { rendered: self.rendered, limit: self.rendered, probing: false }
        }
    }

    /// Takes note of the outcome of the next action, and says whether the tile counts. A tile
    /// that counts is copied into the atlas where it was not drawn there.
    pub fn advance(&mut self, settings: &BakeSettings, outcome: DrawOutcome) -> (r: bool)
        requires
            old(self).wf(*settings),
        ensures
            *final(self) == old(self).advanced(*settings, outcome),
            final(self).wf(*settings),
            r == (!(old(self).next() is Done) && old(self).accepts(*settings, outcome)),
            !old(self).probing && old(self).rendered >= old(self).limit ==> !r && *final(self)
                == *old(self),
            old(self).probing || old(self).rendered < old(self).limit ==> {
                &&& r == (old(self).rendered > 0 || !settings.wait_for_render || (outcome.ok
                    && outcome.actual_count == settings.expected_count))
                &&& !final(self).probing
                &&& r ==> final(self).rendered == old(self).rendered + 1 && final(self).limit
                    == old(self).limit
                &&& !r ==> final(self).rendered == 0 && final(self).limit == 0
            },
    {
        if !self.probing && self.rendered >= self.limit {
            return false;
        }
        let ready: bool = !settings.wait_for_render || (outcome.ok && outcome.actual_count
            == settings.expected_count);
        self.probing = false;
        if self.rendered > 0 || ready {
            self.rendered = self.rendered + 1;
            true
        } else {
            self.limit = self.rendered;
            false
        }
    }
}

/// How a frame of a bake ends.
#[derive(Clone, Copy, Debug, PartialEq, Eq, Structural)]
pub enum FrameEnd {
    /// Tiles are missing.
    Unfinished,
    /// The atlas is complete; the new state of the bake is reported.
    Complete(BakeState),
}

/// How a frame ends with `rendered` tiles done of a grid: a complete atlas is handed to the
/// callback where there is one, else the bake is finished.
pub open spec fn frame_end(rendered: int, grid_size: int, has_callback: bool) -> FrameEnd {
    if rendered != grid_size * grid_size {
        FrameEnd::Unfinished
    } else if has_callback {
        FrameEnd::Complete(BakeState::RunningCallback)
    } else {
        FrameEnd::Complete(BakeState::Finished)
    }
}

/// How a frame ends with `rendered` tiles done of a grid.
pub fn end_frame(rendered: usize, grid_size: u32, has_callback: bool) -> (r: FrameEnd)
    requires
        grid_size * grid_size <= u32::MAX,
    ensures
        r == frame_end(rendered as int, grid_size as int, has_callback),
        r is Unfinished <==> rendered != grid_size * grid_size,
        rendered == grid_size * grid_size && has_callback ==> r == FrameEnd::Complete(
            BakeState::RunningCallback,
        ),
        rendered == grid_size * grid_size && !has_callback ==> r == FrameEnd::Complete(
            BakeState::Finished,
        ),
{
    let tiles: u32 = grid_size * grid_size;
    if rendered as u64 != tiles as u64 {
        FrameEnd::Unfinished
    } else if has_callback {
        FrameEnd::Complete(BakeState::RunningCallback)
    } else {
        FrameEnd::Complete(BakeState::Finished)
    }
}

/// The sizes that copying an atlas to a buffer takes.
#[derive(Clone, Copy, Debug, PartialEq, Eq, Structural)]
pub struct TransferSizes {
    /// Pixels in each direction.
    pub size: u32,
    /// Bytes of the buffer.
    pub buffer_bytes: u32,
    /// Bytes of a row with its padding.
    pub row_bytes: u32,
}

/// Whether the sizes that copying an atlas takes can be counted in 32 bits.
pub open spec fn transferable(grid_size: int, tile_size: int) -> bool {
    let size = tile_size * grid_size;
    &&& size <= u32::MAX
    &&& aligned(8 * size) <= u32::MAX
    &&& aligned_size(size, size, 8) <= u32::MAX
}

/// Whether the sizes that copying an atlas takes can be counted in 32 bits.
pub fn can_transfer(grid_size: u32, tile_size: u32) -> (r: bool)
    ensures
        r == transferable(grid_size as int, tile_size as int),
        ({
            let size = tile_size * grid_size;
            let row = (8 * size / 256 + 1) * 256;
            r == (size <= 0xffff_ffff && row <= 0xffff_ffff && size * row <= 0xffff_ffff)
        }),
{
    assert(0 <= tile_size * grid_size <= 0xffff_ffff * 0xffff_ffff) by (nonlinear_arith)
        requires
            0 <= tile_size <= 0xffff_ffff,
            0 <= grid_size <= 0xffff_ffff,
    ;
    let size: u128 = tile_size as u128 * grid_size as u128;
    if size > u32::MAX as u128 {
        return false;
    }
    let alignment: u128 = row_alignment() as u128;
    let row: u128 = 8 * size + (alignment - 8 * size % alignment);
    assert(row == aligned(size * 8));
    assert(0 <= size * row <= 0xffff_ffff * 0x10_0000_0000) by (nonlinear_arith)
        requires
            0 <= size <= 0xffff_ffff,
            0 <= row <= 0x10_0000_0000,
    ;
    row <= u32::MAX as u128 && size * row <= u32::MAX as u128
}

/// The sizes that copying an atlas of a grid of square tiles takes.
pub fn transfer_sizes(grid_size: u32, tile_size: u32) -> (r: TransferSizes)
    requires
        transferable(grid_size as int, tile_size as int),
    ensures
        r.size == tile_size * grid_size,
        r.buffer_bytes == aligned_size(tile_size * grid_size, tile_size * grid_size, 8),
        r.row_bytes == aligned_size(tile_size * grid_size, 1, 8),
        r.row_bytes == (8 * (tile_size * grid_size) / 256 + 1) * 256,
        r.buffer_bytes == r.size * r.row_bytes,
{
    let size: u32 = tile_size * grid_size;
    assert(aligned_size(size as int, 1, 8) == aligned(size * 8)) by (nonlinear_arith)
        requires
            aligned_size(size as int, 1, 8) == 1 * aligned(size * 8),
    ;
    TransferSizes {
        size,
        buffer_bytes: get_aligned_size(size, size, 8),
        row_bytes: get_aligned_size(size, 1, 8),
    }
}

/// How many tiles are done of the bakes that are under way, by the number of the camera.
#[derive(Debug)]
pub struct PartBaked {
    tiles: BTreeMap<u64, usize>,
}

impl View for PartBaked {
    type V = Map<u64, usize>;

    closed spec fn view(&self) -> Map<u64, usize> {
        self.tiles@
    }
}

/// How many tiles are done of the bake of a camera.
pub open spec fn tiles_done(part_baked: Map<u64, usize>, camera: u64) -> usize {
    if part_baked.contains_key(camera) {
        part_baked[camera]
    } else {
        0
    }
}

impl PartBaked {
    /// No bake is under way.
    pub fn new() -> (r: Self)
        ensures
            r@ == Map::<u64, usize>::empty(),
    {
        PartBaked { tiles: BTreeMap::new() }
    }

    /// How many tiles are done of the bake of a camera.
    pub fn rendered(&self, camera: u64) -> (r: usize)
        ensures
            r == tiles_done(self@, camera),
            self@.contains_key(camera) ==> r == self@[camera],
            !self@.contains_key(camera) ==> r == 0,
    {
        match self.tiles.get(&camera) {
            Some(rendered) => *rendered,
            None => 0,
        }
    }

    /// Takes note of the end of a frame. A bake that is complete is forgotten.
    pub fn record(&mut self, camera: u64, rendered: usize, end: FrameEnd)
        ensures
            final(self)@ == match end {
                FrameEnd::Unfinished => old(self)@.insert(camera, rendered),
                FrameEnd::Complete(_) => old(self)@.remove(camera),
            },
    {
        match end {
            FrameEnd::Unfinished => {
                self.tiles.insert(camera, rendered);
            },
            FrameEnd::Complete(_) => {
                self.tiles.remove(&camera);
            },
        }
    }

    /// Forgets the bakes of all the cameras but `cameras`.
    pub fn retain(&mut self, cameras: &Vec<u64>)
        ensures
            final(self)@ == old(self)@.restrict(cameras@.to_set()),
    {
        let mut kept: BTreeMap<u64, usize> = BTreeMap::new();
        let mut i: usize = 0;
        while i < cameras.len()
            invariant
                i <= cameras@.len(),
                self@ == old(self)@,
                kept@ == old(self)@.restrict(cameras@.take(i as int).to_set()),
            decreases cameras@.len() - i,
        {
            let camera: u64 = cameras[i];
            let ghost before = cameras@.take(i as int).to_set();
            let found = match self.tiles.get(&camera) {
                Some(rendered) => Some(*rendered),
                None => None,
            };
            if let Some(rendered) = found {
                kept.insert(camera, rendered);
            }
            proof {
                assert(cameras@.take(i + 1) =~= cameras@.take(i as int).push(camera));
                assert(cameras@.take(i + 1).to_set() =~= before.insert(camera)) by {
                    assert forall|k: u64| before.insert(camera).contains(
                        k,
                    ) implies cameras@.take(i + 1).to_set().contains(k) by {
                        if k == camera {
                            assert(cameras@.take(i + 1)[i as int] == k);
                        } else {
                            let j = choose|j: int| 0 <= j < i && cameras@.take(i as int)[j] == k;
                            assert(cameras@.take(i + 1)[j] == k);
                        }
                    }
                }
                assert(kept@ =~= old(self)@.restrict(before.insert(camera)));
            }
            i = i + 1;
        }
        assert(cameras@.take(i as int) =~= cameras@);
        self.tiles = kept;
    }
}

/// The state of a bake after reports, and whether its channel is closed: a bake that goes on for
/// ever passes them over; else the last report holds, and a report that it is finished closes
/// the channel.
pub open spec fn reported(
    state: BakeState,
    continuous: bool,
    reports: Seq<BakeState>,
) -> (BakeState, bool) {
    if continuous || reports.len() == 0 {
        (state, false)
    } else {
        (reports.last(), reports.contains(BakeState::Finished))
    }
}

/// The state of a bake after reports, and whether its channel is closed.
pub fn check_finished(state: BakeState, continuous: bool, reports: &Vec<BakeState>) -> (r: (
    BakeState,
    bool,
))
    ensures
        r == reported(state, continuous, reports@),
        continuous || reports@.len() == 0 ==> r == (state, false),
        !continuous && reports@.len() > 0 ==> r.0 == reports@[reports@.len() - 1] && (r.1
            <==> exists|i: int| 0 <= i < reports@.len() && #[trigger] reports@[i] is Finished),
{
    let mut state = state;
    let mut close: bool = false;
    if continuous {
        return (state, close);
    }
    let mut i: usize = 0;
    let ghost given = state;
    while i < reports.len()
        invariant
            !continuous,
            i <= reports@.len(),
            (state, close) == reported(given, continuous, reports@.take(i as int)),
        decreases reports@.len() - i,
    {
        let report = reports[i];
        state = report;
        proof {
            let seen = reports@.take(i as int);
            let more = reports@.take(i + 1);
            assert(more =~= seen.push(report));
            assert(more.last() == report);
            if seen.contains(BakeState::Finished) {
                let k = choose|k: int| 0 <= k < seen.len() && seen[k] == BakeState::Finished;
                assert(more[k] == BakeState::Finished);
            }
            if report == BakeState::Finished {
                assert(more[i as int] == BakeState::Finished);
            }
            if more.contains(BakeState::Finished) && report != BakeState::Finished {
                let k = choose|k: int| 0 <= k < more.len() && more[k] == BakeState::Finished;
                assert(seen[k] == BakeState::Finished);
            }
        }
        if report == BakeState::Finished {
            close = true;
        }
        i = i + 1;
    }
    assert(reports@.take(i as int) =~= reports@);
    (state, close)
}

/// Adds the instances of a batch to the items drawn. A batch is drawn at once, however many
/// instances it has.
pub fn count_batch(count: usize, start: u32, end: u32) -> (r: usize)
    requires
        start <= end,
        count + (end - start) <= usize::MAX,
    ensures
        r == count + (end - start),
{
    count + (end - start) as usize
}

/// While a bake waits and no tile is done, a tile counts exactly where it was drawn without an
/// error and shows all that it must. Any other outcome, a tile that shows nothing at all included,
/// leaves no tile done and ends the frame.
pub proof fn law_a_waiting_bake_counts_full_tiles_only(
    frame: BakeFrame,
    settings: BakeSettings,
    outcome: DrawOutcome,
)
    requires
        settings.wait_for_render,
        frame.rendered == 0,
        frame.probing || 0 < frame.limit,
    ensures
        ({
            let after = frame.advanced(settings, outcome);
            if outcome.ok && outcome.actual_count == settings.expected_count {
                after.rendered == 1 && after.limit == frame.limit && !after.probing
            } else {
                after.rendered == 0 && after.limit == 0 && !after.probing && after.next() is Done
            }
        }),
{
}

/// A tile counts whatever its outcome where the bake does not wait, or where a tile is done.
pub proof fn law_other_tiles_always_count(
    frame: BakeFrame,
    settings: BakeSettings,
    outcome: DrawOutcome,
)
    requires
        !settings.wait_for_render || 0 < frame.rendered,
        frame.rendered < usize::MAX,
    ensures
        ({
            let after = frame.advanced(settings, outcome);
            if frame.probing || frame.rendered < frame.limit {
                after.rendered == frame.rendered + 1 && after.limit == frame.limit
                    && !after.probing
            } else {
                after == frame
            }
        }),
{
}

/// What a frame may do, and what it does next: it goes on from the tiles that are done, never
/// beyond those of the atlas or those of one frame. With one sample the first tile is probed.
pub proof fn law_frame_goes_on(rendered: usize, settings: BakeSettings)
    requires
        rendered <= settings.tiles,
    ensures
        ({
            let frame = BakeFrame::started(rendered, settings);
            &&& frame.rendered == rendered
            &&& rendered <= frame.limit <= settings.tiles
            &&& frame.limit - rendered <= settings.max_tiles
            &&& frame.limit == settings.tiles || frame.limit - rendered == settings.max_tiles
            &&& frame.next() is Probe <==> settings.multisample == 1 && rendered == 0 && 0
                < settings.tiles && 0 < settings.max_tiles
            &&& frame.next() is Done <==> rendered == settings.tiles || settings.max_tiles == 0
            &&& frame.next() matches BakeAction::Draw(tile) ==> tile == rendered
        }),
{
}

/// A grid is complete when all its tiles are done, and at no other time; the callback has its
/// turn before the bake is finished.
pub proof fn law_frame_ends(rendered: int, grid_size: int, has_callback: bool)
    ensures
        frame_end(rendered, grid_size, has_callback) is Unfinished <==> rendered != grid_size
            * grid_size,
        rendered == grid_size * grid_size ==> frame_end(rendered, grid_size, has_callback)
            == FrameEnd::Complete(
            if has_callback {
                BakeState::RunningCallback
            } else {
                BakeState::Finished
            },
        ),
{
}

/// The last report holds, one that the bake is finished closes the channel, and a bake that goes
/// on for ever passes all reports over.
pub proof fn law_last_report_holds(
    state: BakeState,
    continuous: bool,
    reports: Seq<BakeState>,
    last: BakeState,
)
    ensures
        reported(state, continuous, Seq::<BakeState>::empty()) == (state, false),
        continuous ==> reported(state, continuous, reports) == (state, false),
        !continuous ==> reported(state, continuous, reports.push(last)).0 == last,
        !continuous ==> (reported(state, continuous, reports.push(last)).1 <==> reported(
            state,
            continuous,
            reports,
        ).1 || last is Finished),
{
    let more = reports.push(last);
    assert(more.last() == last);
    if reports.contains(BakeState::Finished) {
        let i = choose|i: int| 0 <= i < reports.len() && reports[i] == BakeState::Finished;
        assert(more[i] == BakeState::Finished);
    }
    if last is Finished {
        assert(more[reports.len() as int] == BakeState::Finished);
    }
    if more.contains(BakeState::Finished) && !(last is Finished) {
        let i = choose|i: int| 0 <= i < more.len() && more[i] == BakeState::Finished;
        assert(reports[i] == BakeState::Finished);
    }
}

/// Items are counted however their batches are cut: two batches that follow each other count as
/// much as one over both.
pub proof fn law_batches_may_be_cut(
    count: usize,
    start: u32,
    cut: u32,
    end: u32,
    first: usize,
    both: usize,
    whole: usize,
)
    requires
        call_ensures(count_batch, (count, start, cut), first),
        call_ensures(count_batch, (first, cut, end), both),
        call_ensures(count_batch, (count, start, end), whole),
    ensures
        both == whole,
        whole == count + (end - start),
{
}

} // verus!
