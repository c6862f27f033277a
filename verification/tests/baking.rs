use boimp::bake::{debug_enabled, enough_transforms, plan_textures, ImposterBakeCamera};
use boimp::math::{FloatBits, UVec2};
use boimp::oct_coords::GridMode;
use boimp::progress::{
    can_transfer, check_finished, count_batch, end_frame, transfer_sizes, BakeAction, BakeFrame,
    BakeSettings, BakeState, DrawOutcome, FrameEnd, PartBaked,
};
use boimp::queue::{choose_phase, triage, BlendBits, ItemFacts, Phase, QueueCounts, Triage};
use boimp::readback::{
    align_byte_size, can_read, count_used_texels, get_aligned_size, read_atlas, remove_padding,
};
use boimp::render::TexelFormat;
use boimp::shader_defs::{bake_shader_defs, ShaderDef};
use boimp::subviews::{
    number_subviews, should_extract, subview_index, tiles_of_grid, Subview, SubviewCache,
};
use boimp::visibility::{
    check_imposter_visibility, count_expected, sees, visible_entities, CameraVisibility,
    EntityFacts,
};

fn bake(multisample: u32, max_tiles: usize, wait: bool) -> BakeSettings {
    BakeSettings {
        tiles: 9,
        multisample,
        max_tiles,
        expected_count: 5,
        wait_for_render: wait,
    }
}

fn drawn(actual_count: usize) -> DrawOutcome {
    DrawOutcome { ok: true, actual_count }
}

/// Runs a frame in which every draw has the same outcome; gives the actions and the tiles done.
fn run(rendered: usize, settings: &BakeSettings, outcome: DrawOutcome) -> (Vec<BakeAction>, usize) {
    let mut frame = BakeFrame::start(rendered, settings);
    let mut actions = vec![];
    while frame.next_action() != BakeAction::Done {
        actions.push(frame.next_action());
        frame.advance(settings, outcome);
    }
    (actions, frame.rendered)
}

#[test]
fn a_single_sample_bake_probes_before_it_draws() {
    let settings = bake(1, 3, true);
    let (actions, rendered) = run(0, &settings, drawn(5));
    assert_eq!(
        actions,
        vec![BakeAction::Probe, BakeAction::Draw(1), BakeAction::Draw(2)]
    );
    assert_eq!(rendered, 3);
    let (actions, rendered) = run(3, &settings, drawn(0));
    assert_eq!(actions, vec![BakeAction::Draw(3), BakeAction::Draw(4), BakeAction::Draw(5)]);
    assert_eq!(rendered, 6);
    let (actions, rendered) = run(7, &settings, drawn(0));
    assert_eq!(actions, vec![BakeAction::Draw(7), BakeAction::Draw(8)]);
    assert_eq!(rendered, 9);
    let (actions, rendered) = run(0, &bake(1, 1, true), drawn(5));
    assert_eq!(actions, vec![BakeAction::Probe]);
    assert_eq!(rendered, 1);
}

#[test]
fn a_bake_waits_for_everything_to_be_drawn() {
    for multisample in [1, 4] {
        let settings = bake(multisample, 3, true);
        let (actions, rendered) = run(0, &settings, drawn(4));
        assert_eq!(actions.len(), 1);
        assert_eq!(rendered, 0);
        let failed = DrawOutcome { ok: false, actual_count: 5 };
        assert_eq!(run(0, &settings, failed).1, 0);
        let (_, rendered) = run(0, &bake(multisample, 3, false), failed);
        assert!(rendered > 0);
    }
}

#[test]
fn a_multisampled_bake_judges_its_first_tile() {
    let settings = bake(8, 2, true);
    let mut frame = BakeFrame::start(0, &settings);
    assert_eq!(frame.next_action(), BakeAction::Draw(0));
    assert!(frame.advance(&settings, drawn(5)));
    assert_eq!(frame.next_action(), BakeAction::Draw(1));
    assert!(frame.advance(&settings, drawn(99)));
    assert_eq!(frame.next_action(), BakeAction::Done);
    assert!(!frame.advance(&settings, drawn(5)));
    assert_eq!(frame.rendered, 2);
    let mut frame = BakeFrame::start(0, &settings);
    assert!(!frame.advance(&settings, drawn(6)));
    assert_eq!(frame.next_action(), BakeAction::Done);
}

#[test]
fn a_bake_comes_to_its_end() {
    for multisample in [1, 2] {
        for max_tiles in [1, 2, 4, usize::MAX] {
            let settings = bake(multisample, max_tiles, true);
            let mut rendered = 0;
            let mut frames = 0;
            while end_frame(rendered, 3, false) == FrameEnd::Unfinished {
                rendered = run(rendered, &settings, drawn(5)).1;
                frames += 1;
                assert!(frames <= 9);
            }
            assert_eq!(rendered, 9);
        }
    }
    assert_eq!(run(0, &bake(2, 0, false), drawn(5)), (vec![], 0));
    assert_eq!(run(0, &bake(1, 0, false), drawn(5)), (vec![], 0));
}

#[test]
fn a_complete_atlas_is_reported() {
    assert_eq!(end_frame(8, 3, true), FrameEnd::Unfinished);
    assert_eq!(end_frame(9, 3, true), FrameEnd::Complete(BakeState::RunningCallback));
    assert_eq!(end_frame(9, 3, false), FrameEnd::Complete(BakeState::Finished));
    assert_eq!(end_frame(10, 3, false), FrameEnd::Unfinished);
}

#[test]
fn bakes_under_way_are_remembered() {
    let mut part = PartBaked::new();
    assert_eq!(part.rendered(7), 0);
    part.record(7, 3, FrameEnd::Unfinished);
    part.record(8, 5, FrameEnd::Unfinished);
    part.record(9, 1, FrameEnd::Unfinished);
    assert_eq!(part.rendered(7), 3);
    part.record(8, 9, FrameEnd::Complete(BakeState::Finished));
    assert_eq!(part.rendered(8), 0);
    part.retain(&vec![9, 12, 9]);
    assert_eq!((part.rendered(7), part.rendered(9)), (0, 1));
}

#[test]
fn reports_move_a_bake_on() {
    let rendering = BakeState::Rendering;
    let callback = BakeState::RunningCallback;
    let finished = BakeState::Finished;
    assert_eq!(check_finished(rendering, false, &vec![]), (rendering, false));
    assert_eq!(check_finished(rendering, false, &vec![callback]), (callback, false));
    assert_eq!(check_finished(rendering, false, &vec![callback, finished]), (finished, true));
    assert_eq!(check_finished(rendering, false, &vec![finished, callback]), (callback, true));
    assert_eq!(check_finished(rendering, true, &vec![finished]), (rendering, false));
}

#[test]
fn batches_count_their_instances() {
    assert_eq!(count_batch(2, 3, 10), 9);
    assert_eq!(count_batch(2, 3, 3), 2);
    let split = count_batch(count_batch(0, 0, 4), 4, 11);
    assert_eq!(split, count_batch(0, 0, 11));
}

#[test]
fn rows_are_padded_to_the_next_multiple() {
    assert_eq!(align_byte_size(0), 256);
    assert_eq!(align_byte_size(1), 256);
    assert_eq!(align_byte_size(255), 256);
    assert_eq!(align_byte_size(256), 512);
    assert_eq!(align_byte_size(512 * 8), 512 * 8 + 256);
    assert_eq!(get_aligned_size(10, 3, 8), 768);
    let sizes = transfer_sizes(8, 64);
    assert_eq!((sizes.size, sizes.row_bytes, sizes.buffer_bytes), (512, 4352, 4352 * 512));
    assert!(can_read(sizes.buffer_bytes as usize, sizes.size));
}

#[test]
fn padding_is_removed() {
    for size in [1u32, 3, 32, 33] {
        let row = 8 * size as usize;
        let padded = align_byte_size(8 * size) as usize;
        let mut buffer = vec![];
        let mut expected = vec![];
        for y in 0..size as usize {
            for b in 0..padded {
                let value = if b < row { (y * 31 + b * 7) as u8 } else { 0xee };
                buffer.push(value);
                if b < row {
                    expected.push(value);
                }
            }
        }
        assert_eq!(remove_padding(buffer.clone(), size), expected);
        let image = read_atlas(buffer, size);
        assert_eq!((image.width, image.height), (size, size));
        assert_eq!(image.data, expected);
        assert_eq!(remove_padding(expected.clone(), size), expected);
    }
    assert_eq!(remove_padding(vec![], 0), Vec::<u8>::new());
}

#[test]
fn used_texels_are_counted() {
    let mut data = vec![0; 40];
    assert_eq!(count_used_texels(&data), 0);
    data[7] = 1;
    data[8] = 1;
    data[15] = 1;
    data[39] = 2;
    assert_eq!(count_used_texels(&data), 3);
    data.push(9);
    assert_eq!(count_used_texels(&data), 3);
}

#[test]
fn tiles_are_numbered_row_after_row() {
    assert_eq!(
        tiles_of_grid(2),
        vec![
            UVec2 { x: 0, y: 0 },
            UVec2 { x: 1, y: 0 },
            UVec2 { x: 0, y: 1 },
            UVec2 { x: 1, y: 1 },
        ]
    );
    assert_eq!(tiles_of_grid(0), vec![]);
    for (i, tile) in tiles_of_grid(5).into_iter().enumerate() {
        assert_eq!(subview_index(5, tile) as usize, i);
    }
    let subviews = number_subviews(2, &vec![40, 41, 42, 43]);
    assert_eq!(subviews[2], Subview { x: 0, y: 1, entity: 42 });
    assert_eq!(subviews.len(), 4);
}

#[test]
fn only_rendering_cameras_are_extracted() {
    assert!(should_extract(BakeState::Rendering, false));
    assert!(!should_extract(BakeState::Rendering, true));
    assert!(!should_extract(BakeState::RunningCallback, false));
    assert!(!should_extract(BakeState::Finished, false));
}

#[test]
fn views_are_kept_or_released() {
    let mut cache = SubviewCache::new();
    cache.begin_frame();
    assert_eq!(cache.reuse(1, false), None);
    cache.keep(1, number_subviews(1, &vec![100]));
    cache.keep(2, number_subviews(1, &vec![200]));
    cache.keep(3, number_subviews(2, &vec![300, 301, 302, 303]));
    assert_eq!(cache.end_frame(), vec![]);

    // The first camera stays, the second changed, the third is gone.
    cache.begin_frame();
    assert_eq!(cache.reuse(1, false), Some(number_subviews(1, &vec![100])));
    assert_eq!(cache.reuse(2, true), None);
    cache.keep(2, number_subviews(1, &vec![201]));
    let mut released = cache.end_frame();
    released.sort();
    assert_eq!(released, vec![200, 300, 301, 302, 303]);

    cache.begin_frame();
    assert_eq!(cache.reuse(1, false), Some(number_subviews(1, &vec![100])));
    assert_eq!(cache.reuse(2, false), Some(number_subviews(1, &vec![201])));
    assert_eq!(cache.end_frame(), vec![]);
}

#[test]
fn views_left_behind_are_released_once() {
    let mut cache = SubviewCache::new();
    cache.begin_frame();
    cache.keep(7, number_subviews(2, &vec![10, 11, 12, 13]));
    cache.keep(9, number_subviews(1, &vec![20]));
    cache.keep(8, number_subviews(1, &vec![30]));
    assert_eq!(cache.end_frame(), vec![]);

    // A frame that is under way still has views to take over.
    assert!(cache.is_between_frames());
    cache.begin_frame();
    assert!(!cache.is_between_frames());
    let mut released = cache.end_frame();
    released.sort();
    assert_eq!(released, vec![10, 11, 12, 13, 20, 30]);
    assert!(cache.is_between_frames());
    cache.keep(7, number_subviews(2, &vec![10, 11, 12, 13]));
    cache.keep(9, number_subviews(1, &vec![20]));
    cache.keep(8, number_subviews(1, &vec![30]));

    // Of three cameras one goes on; nothing that it uses is released, and nothing twice.
    cache.begin_frame();
    assert_eq!(cache.reuse(9, false), Some(number_subviews(1, &vec![20])));
    let mut released = cache.end_frame();
    assert_eq!(released.len(), 5);
    released.sort();
    assert_eq!(released, vec![10, 11, 12, 13, 30]);
    cache.begin_frame();
    assert_eq!(cache.reuse(7, false), None);
    assert_eq!(cache.end_frame(), vec![20]);
}

fn facts(entity: u64) -> EntityFacts {
    EntityFacts {
        entity,
        inherited: true,
        layers_intersect: true,
        no_frustum_culling: false,
        in_reach: Some(true),
    }
}

#[test]
fn hidden_and_distant_entities_are_not_seen() {
    assert!(sees(&facts(1), false));
    assert!(!sees(&EntityFacts { inherited: false, ..facts(1) }, true));
    assert!(!sees(&EntityFacts { layers_intersect: false, ..facts(1) }, true));
    let distant = EntityFacts { in_reach: Some(false), ..facts(1) };
    assert!(!sees(&distant, false));
    assert!(sees(&distant, true));
    assert!(sees(&EntityFacts { no_frustum_culling: true, ..distant }, false));
    assert!(sees(&EntityFacts { in_reach: None, ..distant }, false));
    assert_eq!(visible_entities(&vec![facts(5), distant, facts(3)], false), vec![5, 3]);
}

fn camera(continuous: bool, state: BakeState) -> CameraVisibility {
    CameraVisibility {
        continuous,
        state,
        no_cpu_culling: false,
        visible: vec![77],
        expected_count: 4,
    }
}

#[test]
fn a_camera_that_is_done_hides_nothing_from_others() {
    let mut cameras = vec![
        camera(false, BakeState::Rendering),
        camera(true, BakeState::Finished),
        camera(false, BakeState::Finished),
        camera(false, BakeState::Rendering),
    ];
    let seen = vec![
        vec![facts(1), facts(2)],
        vec![facts(3)],
        vec![facts(4)],
        vec![facts(5)],
    ];
    check_imposter_visibility(&mut cameras, &seen);
    assert_eq!(cameras[0].visible, vec![1, 2]);
    assert_eq!(cameras[0].expected_count, 0);
    assert_eq!(cameras[1].visible, vec![3]);
    assert_eq!(cameras[1].expected_count, 0);
    assert_eq!(cameras[2].visible, vec![]);
    assert_eq!(cameras[2].expected_count, 4);
    assert_eq!(cameras[3].visible, vec![5]);
    assert_eq!(cameras[3].expected_count, 0);
}

#[test]
fn a_camera_before_it_does_not_matter_to_a_camera() {
    let mut alone = vec![camera(false, BakeState::Rendering)];
    check_imposter_visibility(&mut alone, &vec![vec![facts(8), facts(6)]]);
    let mut cameras =
        vec![camera(false, BakeState::Finished), camera(false, BakeState::Rendering)];
    check_imposter_visibility(&mut cameras, &vec![vec![facts(1)], vec![facts(8), facts(6)]]);
    assert_eq!(cameras[0].visible, vec![]);
    assert_eq!(cameras[1].visible, alone[0].visible);
    assert_eq!(cameras[1].visible, vec![8, 6]);
    assert_eq!(cameras[1].expected_count, alone[0].expected_count);
}

#[test]
fn expected_items_add_up_over_materials() {
    let (a, b) = (vec![true, false, true, true], vec![false, true, false, false]);
    assert_eq!(count_expected(count_expected(0, &a), &b), 4);
    assert_eq!(count_expected(count_expected(0, &b), &a), 4);
    let first = count_expected(0, &vec![true, false, true]);
    assert_eq!(first, 2);
    assert_eq!(count_expected(first, &vec![false, true, false]), 3);
    assert_eq!(count_expected(5, &vec![]), 5);
}

fn item() -> ItemFacts {
    ItemFacts {
        material_matches: Some(true),
        has_mesh: true,
        material_on_gpu: true,
        mesh_on_gpu: true,
    }
}

#[test]
fn entities_are_queued_when_everything_is_there() {
    let mut counts = QueueCounts::new();
    assert!(!counts.worth_reporting());
    let cases = [
        (ItemFacts { material_matches: None, ..item() }, Triage::NoMaterial),
        (ItemFacts { material_matches: Some(false), has_mesh: false, ..item() }, Triage::WrongType),
        (ItemFacts { has_mesh: false, mesh_on_gpu: false, ..item() }, Triage::NoMesh),
        (ItemFacts { material_on_gpu: false, ..item() }, Triage::NotOnGpu),
        (ItemFacts { mesh_on_gpu: false, ..item() }, Triage::NotOnGpu),
        (item(), Triage::Ready),
    ];
    for (facts, expected) in cases {
        assert_eq!(triage(&facts), expected);
        counts.tally(expected, true);
    }
    counts.tally(Triage::Ready, false);
    assert_eq!(
        counts,
        QueueCounts { queued: 1, no_material: 1, wrong_type: 1, no_mesh: 1, not_on_gpu: 2 }
    );
    assert!(counts.worth_reporting());
    let mut others = QueueCounts::new();
    others.tally(Triage::WrongType, true);
    assert!(!others.worth_reporting());
}

#[test]
fn a_full_count_takes_no_more() {
    let mut counts = QueueCounts { no_mesh: usize::MAX, ..QueueCounts::new() };
    assert!(!counts.can_tally(Triage::NoMesh, true));
    assert!(counts.can_tally(Triage::NotOnGpu, true));
    counts.tally(Triage::NotOnGpu, true);
    assert_eq!(counts.not_on_gpu, 1);
    let full = QueueCounts { queued: usize::MAX, ..QueueCounts::new() };
    assert!(!full.can_tally(Triage::Ready, true));
    assert!(full.can_tally(Triage::Ready, false));
}

#[test]
fn blend_modes_choose_the_phase() {
    let bits = BlendBits {
        reserved: 0b111000,
        may_discard: 0b1,
        opaque: 0,
        alpha_to_coverage: 0b101000,
    };
    assert_eq!(choose_phase(0, &bits), Phase::Opaque);
    assert_eq!(choose_phase(0b110, &bits), Phase::Opaque);
    assert_eq!(choose_phase(0b101110, &bits), Phase::Opaque);
    assert_eq!(choose_phase(0b1, &bits), Phase::AlphaMask);
    assert_eq!(choose_phase(0b111, &bits), Phase::AlphaMask);
    assert_eq!(choose_phase(0b001000, &bits), Phase::Transparent);
    assert_eq!(choose_phase(0b101001, &bits), Phase::Transparent);
}

fn names(defs: &[ShaderDef]) -> Vec<String> {
    defs.iter()
        .map(|def| match def {
            ShaderDef::Bool(name, value) => format!("{name}={value}"),
            ShaderDef::Int(name, value) => format!("{name}={value}"),
            ShaderDef::UInt(name, value) => format!("{name}={value}"),
        })
        .collect()
}

#[test]
fn bake_shaders_lose_other_prepasses() {
    let given = vec![
        ShaderDef::Bool("FIRST".to_string(), false),
        ShaderDef::Bool("DEPTH_PREPASS".to_string(), true),
        ShaderDef::Int("DEPTH_PREPASS".to_string(), -1),
        ShaderDef::Bool("NORMAL_PREPASS".to_string(), false),
        ShaderDef::UInt("COUNT".to_string(), 4),
        ShaderDef::Bool("MOTION_VECTOR_PREPASS".to_string(), true),
        ShaderDef::Bool("LAST".to_string(), true),
    ];
    let defs = bake_shader_defs(given, true);
    assert_eq!(
        names(&defs),
        vec![
            "FIRST=false",
            "DEPTH_PREPASS=-1",
            "COUNT=4",
            "LAST=true",
            "IMPOSTER_BAKE_PIPELINE=true",
            "PREPASS_FRAGMENT=true",
            "DEPTH_CLAMP_ORTHO=true",
            "DEFERRED_PREPASS=true",
            "NORMAL_PREPASS_OR_DEFERRED_PREPASS=true",
            "VIEW_PROJECTION_ORTHOGRAPHIC=true",
            "VERTEX_TANGENTS=true",
        ]
    );
    assert_eq!(bake_shader_defs(vec![], false).len(), 6);
}

#[test]
fn a_camera_starts_with_its_defaults() {
    let camera = ImposterBakeCamera::default();
    assert_eq!(camera.radius, FloatBits { bits: 1.0f32.to_bits() });
    assert_eq!((camera.grid_size, camera.tile_size, camera.multisample), (8, 64, 8));
    assert_eq!(camera.grid_mode, GridMode::Spherical);
    assert_eq!(camera.order, -99);
    assert!(!camera.continuous && camera.wait_for_render);
    assert_eq!(camera.max_tiles_per_frame, usize::MAX);
    assert_eq!(camera.state, BakeState::Rendering);
    assert_eq!(camera.atlas_size(), 512);
    let settings = camera.settings(3);
    assert_eq!((settings.tiles, settings.expected_count), (64, 3));
    assert_eq!(camera.tile_start(UVec2 { x: 7, y: 2 }), UVec2 { x: 448, y: 128 });
}

#[test]
fn a_target_is_blank_and_as_large_as_the_atlas() {
    let camera = ImposterBakeCamera { grid_size: 2, tile_size: 3, ..Default::default() };
    let target = camera.init_target();
    assert_eq!((target.width, target.height), (6, 6));
    assert_eq!(target.format, TexelFormat::Rg32Uint);
    assert_eq!(target.data, vec![0; 8 * 36]);
}

#[test]
fn samples_take_a_texture_of_their_own() {
    let single = plan_textures(8, 64, 1);
    assert_eq!((single.output, single.intermediate, single.depth), (512, None, 512));
    assert!(!single.blit);
    let multi = plan_textures(8, 64, 4);
    assert_eq!((multi.output, multi.intermediate, multi.depth), (512, Some(256), 256));
    assert!(multi.blit);
    let none = plan_textures(8, 64, 0);
    assert_eq!((none.intermediate, none.blit), (Some(0), false));
}

#[test]
fn the_trace_is_switched_on_by_name() {
    for value in ["1", "true", "on"] {
        assert!(debug_enabled(Some(value)));
    }
    for value in ["", "0", "TRUE", "yes"] {
        assert!(!debug_enabled(Some(value)));
    }
    assert!(!debug_enabled(None));
}

#[test]
fn a_user_gives_a_view_for_every_tile() {
    assert!(enough_transforms(None, 9));
    assert!(enough_transforms(Some(4), 2));
    assert!(enough_transforms(Some(5), 2));
    assert!(!enough_transforms(Some(3), 2));
}

#[test]
fn sizes_are_checked_before_they_are_used() {
    assert!(can_read(8 * 9, 3));
    assert!(can_read(3 * 256, 3));
    assert!(can_read(3 * 256 + 1, 3));
    assert!(!can_read(3 * 256 - 1, 3));
    assert!(can_read(0, 0));
    assert!(!can_read(usize::MAX, 65536));
    assert!(can_transfer(8, 64));
    assert!(can_transfer(1, 23154));
    assert!(!can_transfer(1, 23200));
    assert!(!can_transfer(u32::MAX, u32::MAX));
    let camera = ImposterBakeCamera::default();
    assert!(camera.is_countable() && camera.can_init_target());
    let large = ImposterBakeCamera { grid_size: 65536, tile_size: 65536, ..camera };
    assert!(!large.is_countable() && !large.can_init_target());
    let sampled = ImposterBakeCamera { multisample: 1 << 26, ..camera };
    assert!(!sampled.is_countable());
}
