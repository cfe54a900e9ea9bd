use kuluu::geometry::{Mat4, Vec2, Vec3, Vec4};
use kuluu::mmb_cache::{
    AppliedTextureFiltering, MmbHandleCache, MmbLoadInFlight, MmbParseCache, MmbTexPools,
    TexturePool,
};
use kuluu::mmb_load::{
    build_submeshes, check_mmb_chunk, clear_mmb_file_textures, drop_mmb_file_textures, load_mmb,
    out_of_range_message, texture_set, ChunkKind, DecodedTexture, FileChunk, LoadError, LoadedMmb,
    MmbModel, MmbVertex, NamedTexture, TextureBank, COORD_SANE_LIMIT_BITS,
};
use kuluu::mmb_material::{
    is_mirrored, plan_material, submesh_alpha_mode, submesh_texture, AlphaMode, RenderState,
    CUTOUT_THRESHOLD_BITS,
};
use kuluu::mmb_pass::{
    entity_place, frame_budget_ms, load_failed_message, missing_entity_message,
    nothing_to_draw_message, plan_placement, spawned_message, MmbPass, PassAction,
};
use kuluu::mmb_request::{
    is_zone_placement, mmb_load_order_key, mmb_repass_needed, placement_position, GenWater,
    LoadMmbRequest, MmbLoadQueue, MMB_REEVAL_MOVE_YALMS_BITS, NO_SUB_AREA_LINK,
};
use kuluu::mmb_retire::{
    retire_far_zone_placements, retire_scan_needed, zone_placement_should_retire, ZonePlacement,
    RETIRE_MARGIN_BITS,
};
use kuluu::scalar::Scalar;
use std::sync::Arc;

const MMB_REEVAL_MOVE_YALMS: f32 = 1.0;
const ZONE_SLOT_MAIN: u8 = 0;

fn s(x: f32) -> Scalar {
    Scalar::from_bits(x.to_bits())
}

fn v2(x: f32, y: f32) -> Vec2 {
    Vec2 { x: s(x), y: s(y) }
}

fn v3(x: f32, y: f32, z: f32) -> Vec3 {
    Vec3 { x: s(x), y: s(y), z: s(z) }
}

fn v4(x: f32, y: f32, z: f32, w: f32) -> Vec4 {
    Vec4 { x: s(x), y: s(y), z: s(z), w: s(w) }
}

fn translation(p: Vec3) -> Mat4 {
    Mat4 {
        x_axis: v4(1.0, 0.0, 0.0, 0.0),
        y_axis: v4(0.0, 1.0, 0.0, 0.0),
        z_axis: v4(0.0, 0.0, 1.0, 0.0),
        w_axis: Vec4 { x: p.x, y: p.y, z: p.z, w: s(1.0) },
    }
}

fn f(x: Scalar) -> f32 {
    f32::from_bits(x.bits)
}

/// The square of the distance on the ground.
fn ground(a: Vec3, b: Vec3) -> f32 {
    let dx = f(a.x) - f(b.x);
    let dz = f(a.z) - f(b.z);
    dx * dx + dz * dz
}

fn order_key(req: &LoadMmbRequest, self_pos: Vec3) -> f32 {
    f(mmb_load_order_key(req, s(ground(placement_position(req), self_pos))))
}

fn retires(center: [f32; 3], offset: [f32; 3], load_radius: f32) -> bool {
    let center = v3(center[0], center[1], center[2]);
    let pos = v3(f(center.x) + offset[0], f(center.y) + offset[1], f(center.z) + offset[2]);
    let r = load_radius * f32::from_bits(RETIRE_MARGIN_BITS);
    zone_placement_should_retire(s(ground(pos, center)), s(r * r))
}

#[test]
fn far_zone_placements_retire_beyond_the_hysteresis_margin() {
    let center = [100.0, 0.0, 100.0];
    let load_radius = 100.0;
    assert!(!retires(center, [80.0, 0.0, 0.0], load_radius));
    assert!(!retires(center, [130.0, 0.0, 0.0], load_radius));
    assert!(retires(center, [200.0, 0.0, 0.0], load_radius));
    assert!(retires(center, [-200.0, 999.0, 0.0], load_radius));
    assert!(!retires(center, [0.0, 5000.0, 0.0], load_radius));
}

fn repass(e: bool, p: bool, b: bool, c: bool, last: Option<Vec3>, now: Option<Vec3>) -> bool {
    let d = match (last, now) {
        (Some(a), Some(b)) => {
            let dy = f(a.y) - f(b.y);
            ground(a, b) + dy * dy
        }
        _ => 0.0,
    };
    mmb_repass_needed(e, p, b, c, last, now, s(d))
}

#[test]
fn repass_triggers_on_events_parses_budget_or_settings() {
    assert!(repass(true, false, false, false, None, None));
    assert!(repass(false, true, false, false, None, None));
    assert!(repass(false, false, true, false, None, None));
    assert!(repass(false, false, false, true, None, None));
    assert!(!repass(false, false, false, false, None, None));
}

#[test]
fn repass_gates_on_reference_position_movement() {
    assert_eq!(MMB_REEVAL_MOVE_YALMS_BITS, MMB_REEVAL_MOVE_YALMS.to_bits());
    let prev = Some(v3(10.0, 0.0, 10.0));
    let near = Some(v3(10.0 + MMB_REEVAL_MOVE_YALMS * 0.5, 0.0, 10.0));
    let far = Some(v3(10.0 + MMB_REEVAL_MOVE_YALMS * 2.0, 0.0, 10.0));
    assert!(!repass(false, false, false, false, prev, prev));
    assert!(!repass(false, false, false, false, prev, near));
    assert!(repass(false, false, false, false, prev, far));

    assert!(
        repass(false, false, false, false, None, prev),
        "self appearing must re-evaluate"
    );
    assert!(
        repass(false, false, false, false, prev, None),
        "self disappearing must re-evaluate"
    );
}

fn zone_placement_at(pos: Vec3) -> LoadMmbRequest {
    LoadMmbRequest {
        file_id: 0,
        chunk_idx: 0,
        world_pos: v3(0.0, 0.0, 0.0),
        entity_id: None,
        world_transform: Some(translation(pos)),
        water: None,
        lod: None,
        door: None,
        slot: ZONE_SLOT_MAIN,
        sub_area_link: NO_SUB_AREA_LINK,
    }
}

fn entity_spawn_at(pos: Vec3) -> LoadMmbRequest {
    LoadMmbRequest {
        file_id: 0,
        chunk_idx: 0,
        world_pos: pos,
        entity_id: Some(7),
        world_transform: None,
        water: None,
        lod: None,
        door: None,
        slot: ZONE_SLOT_MAIN,
        sub_area_link: NO_SUB_AREA_LINK,
    }
}

#[test]
fn dist_key_ignores_vertical_axis() {
    let self_pos = v3(10.0, 999.0, 20.0);
    let req = zone_placement_at(v3(13.0, -50.0, 24.0));
    assert_eq!(ground(placement_position(&req), self_pos), 3.0 * 3.0 + 4.0 * 4.0);
    assert_eq!(order_key(&req, self_pos), 3.0 * 3.0 + 4.0 * 4.0);
}

#[test]
fn entity_spawns_sort_ahead_of_any_zone_placement() {
    let self_pos = v3(0.0, 0.0, 0.0);
    let entity = order_key(&entity_spawn_at(v3(500.0, 0.0, 500.0)), self_pos);
    let nearest_prop = order_key(&zone_placement_at(v3(0.1, 0.0, 0.0)), self_pos);
    assert!(entity < nearest_prop);
}

#[test]
fn nearer_zone_placement_sorts_first() {
    let self_pos = v3(0.0, 0.0, 0.0);
    let near = order_key(&zone_placement_at(v3(5.0, 0.0, 0.0)), self_pos);
    let far = order_key(&zone_placement_at(v3(50.0, 0.0, 0.0)), self_pos);
    assert!(near < far);
}

fn texture(name: &str, w: u32, h: u32) -> NamedTexture {
    NamedTexture {
        name: name.to_string(),
        texture: DecodedTexture {
            width: w,
            height: h,
            rgba: vec![0u8; (w as usize) * (h as usize) * 4],
        },
    }
}

#[test]
fn shared_file_texture_sets_are_deduplicated_and_dropped() {
    let mut bank = TextureBank::new();
    let set = Arc::new(vec![texture("t", 4, 4), texture("t", 2, 2)]);
    bank.shared_set(202, set.clone());

    let first = bank.get(202).unwrap();
    let again = bank.shared_set(202, Arc::new(Vec::new()));
    assert!(Arc::ptr_eq(&first, &again));
    assert!(Arc::ptr_eq(&first, &set));

    drop_mmb_file_textures(&mut bank, 202);
    assert!(
        !bank.contains(202),
        "the whole file's texture set must drop when its last chunk retires"
    );
}

#[test]
fn clearing_drops_the_sets_of_all_files() {
    let mut bank = TextureBank::new();
    bank.shared_set(1, Arc::new(vec![texture("a", 1, 1)]));
    bank.shared_set(2, Arc::new(vec![]));
    clear_mmb_file_textures(&mut bank);
    assert!(bank.get(1).is_none() && !bank.contains(2));
}

#[test]
fn underscore_model_is_cutout_at_xim_threshold() {
    let (mode, t) = submesh_alpha_mode("_yashi", 0x0000, true);
    assert_eq!(mode, AlphaMode::Mask(s(0.375)));
    assert_eq!(t, s(0.375));
    assert_eq!(CUTOUT_THRESHOLD_BITS, 0.375f32.to_bits());
}

#[test]
fn blend_flag_is_translucent_non_underscore_model() {
    let (mode, t) = submesh_alpha_mode("kabuse_m", 0x8000, true);
    assert_eq!(mode, AlphaMode::Blend);
    assert_eq!(t, s(0.0));
}

#[test]
fn plain_ground_model_stays_opaque() {
    let (mode, t) = submesh_alpha_mode("ground01", 0x2000, true);
    assert_eq!(mode, AlphaMode::Opaque);
    assert_eq!(t, s(0.0));
    let (mode, _) = submesh_alpha_mode("ground01", 0x0000, true);
    assert_eq!(mode, AlphaMode::Opaque);
}

#[test]
fn textureless_submesh_is_opaque_even_if_underscore() {
    let (mode, _) = submesh_alpha_mode("_yashi", 0x8000, false);
    assert_eq!(mode, AlphaMode::Opaque);
}

#[test]
fn the_blend_flag_is_one_bit() {
    for word in [0u16, 1, 0x2000, 0x7fff, 0x8000, 0x8001, 0xffff] {
        let (mode, _) = submesh_alpha_mode("m", word, true);
        assert_eq!(mode == AlphaMode::Blend, word & 0x8000 != 0);
    }
}

fn vertex(x: f32) -> MmbVertex {
    MmbVertex {
        pos: v3(x, 0.0, 0.0),
        normal: v3(0.0, 1.0, 0.0),
        uv: v2(x, 1.0),
        color: v4(1.0, 0.5, 0.25, 1.0),
    }
}

fn model(name: &str, xs: &[f32], indices: &[u16]) -> MmbModel {
    MmbModel {
        texture_name: name.to_string(),
        vertices: xs.iter().map(|x| vertex(*x)).collect(),
        indices: indices.to_vec(),
        blending: 0x8000,
    }
}

#[test]
fn meshes_keep_whole_triangles_in_range() {
    let models = vec![
        model("a", &[0.0, 1.0, 2.0], &[0, 1, 2, 0, 1, 3, 2, 1, 0, 0]),
        model("no vertices", &[], &[0, 1, 2]),
        model("no indices", &[0.0], &[]),
        model("garbage", &[0.0, f32::NAN, 2.0], &[0, 1, 2]),
        model("too far", &[0.0, 10_000.5, 2.0], &[0, 1, 2]),
        model("infinite", &[0.0, f32::NEG_INFINITY, 2.0], &[0, 1, 2]),
        model("nothing left", &[0.0, 1.0], &[0, 1, 2]),
        model("edge", &[-10_000.0, 10_000.0, 0.0], &[0, 1, 2]),
    ];
    let meshes = build_submeshes(&models);
    let names: Vec<&str> = meshes.iter().map(|m| m.variant_name.as_str()).collect();
    assert_eq!(names, vec!["a", "edge"]);
    assert_eq!(meshes[0].indices, vec![0, 1, 2, 2, 1, 0]);
    assert_eq!(meshes[0].positions[1], v3(1.0, 0.0, 0.0));
    assert_eq!(meshes[0].normals.len(), 3);
    assert_eq!(meshes[0].uvs[2], v2(2.0, 1.0));
    assert_eq!(meshes[0].colors[0], v4(1.0, 0.5, 0.25, 1.0));
    assert_eq!(meshes[0].blending, 0x8000);
    assert_eq!(COORD_SANE_LIMIT_BITS, 10_000.0f32.to_bits());
}

#[test]
fn the_vertex_count_has_sixteen_bits() {
    let xs = vec![0.0; 0x1_0002];
    let meshes = build_submeshes(&vec![model("m", &xs, &[0, 1, 1, 0, 1, 2])]);
    assert_eq!(meshes[0].indices, vec![0, 1, 1]);
    assert!(build_submeshes(&vec![model("m", &xs[..0x1_0000], &[0, 1, 2])]).is_empty());
}

fn chunk(kind: ChunkKind, texture: Option<u32>, name: Option<&str>) -> FileChunk {
    FileChunk {
        kind,
        texture: texture.map(|w| DecodedTexture { width: w, height: 1, rgba: vec![] }),
        texture_name: name.map(|n| n.to_string()),
    }
}

#[test]
fn only_model_chunks_can_be_loaded() {
    let chunks = vec![chunk(ChunkKind::Img, None, None), chunk(ChunkKind::Mmb, None, None)];
    assert_eq!(check_mmb_chunk(&chunks, 1), Ok(()));
    assert_eq!(check_mmb_chunk(&chunks, 0), Err(LoadError::NotMmb { chunk_idx: 0 }));
    assert_eq!(
        check_mmb_chunk(&chunks, 2),
        Err(LoadError::OutOfRange { chunks: 2, chunk_idx: 2 })
    );
    assert_eq!(out_of_range_message(2, 5), "file has 2 chunks, idx 5 out of range");
}

#[test]
fn texture_sets_hold_the_images_that_decode() {
    let set = texture_set(vec![
        chunk(ChunkKind::Mmb, Some(1), Some("no image")),
        chunk(ChunkKind::Img, Some(2), Some("a")),
        chunk(ChunkKind::Img, None, Some("broken")),
        chunk(ChunkKind::Img, Some(3), None),
    ]);
    let shown: Vec<(&str, u32)> =
        set.iter().map(|t| (t.name.as_str(), t.texture.width)).collect();
    assert_eq!(shown, vec![("a", 2), ("", 3)]);
}

fn loaded(models: &[MmbModel]) -> LoadedMmb {
    let models: Vec<MmbModel> = models
        .iter()
        .map(|m| model(&m.texture_name, &vec![0.0; m.vertices.len()], &m.indices))
        .collect();
    load_mmb(&models, Arc::new(vec![]), " asset \n", "_name ".to_string())
}

fn some_model() -> LoadedMmb {
    loaded(&[model("a", &[0.0, 1.0, 2.0], &[0, 1, 2])])
}

#[test]
fn a_loaded_chunk_has_its_names() {
    let l = some_model();
    assert_eq!(l.asset_name, "asset");
    assert_eq!(l.zone_mesh_name, "_name ");
    assert_eq!(l.submeshes.len(), 1);
}

#[test]
fn textures_are_found_by_name_or_else_the_first() {
    let textures =
        vec![texture("x", 1, 1), texture("", 1, 1), texture("y", 1, 1), texture("x", 1, 1)];
    let pool = TexturePool::build(&textures, vec![10, 11, 12, 13]);
    assert_eq!(pool.texture_for("x"), Some(&13));
    assert_eq!(pool.texture_for("y"), Some(&12));
    assert_eq!(pool.texture_for("z"), Some(&10));
    assert_eq!(pool.texture_for(""), Some(&10));
    assert_eq!(submesh_texture(&pool, " y "), Some(&12));
    assert_eq!(pool.named_count(), 2);
    assert_eq!(pool.handles, vec![Some(10), None, Some(12), Some(13)]);
    let empty: TexturePool<i32> = TexturePool::build(&vec![], vec![]);
    assert_eq!(empty.texture_for("x"), None);
}

#[test]
fn a_pool_is_built_once() {
    let mut pools: MmbTexPools<i32> = MmbTexPools::default();
    pools.build_texture_pool(5, &vec![texture("x", 1, 1)], vec![1]);
    pools.build_texture_pool(5, &vec![texture("x", 1, 1)], vec![2]);
    assert_eq!(pools.get(5).unwrap().texture_for("x"), Some(&1));
    pools.drop_file(5);
    assert!(!pools.contains(5));
}

#[test]
fn handles_are_kept_by_submesh_and_winding() {
    let mut cache: MmbHandleCache<i32, i32> = MmbHandleCache::default();
    cache.keep_mesh(1, 2, 0, 10);
    cache.keep_mesh(1, 2, 0, 99);
    cache.keep_mesh(1, 3, 0, 11);
    cache.keep_material(1, 2, 0, false, 20);
    cache.keep_material(1, 2, 0, true, 21);
    assert_eq!(cache.mesh_handle(1, 2, 0), Some(&10));
    assert_eq!(cache.mesh_handle(1, 2, 1), None);
    assert_eq!(cache.material_handle(1, 2, 0, true), Some(&21));
    assert_eq!(cache.material_handle(1, 2, 0, false), Some(&20));
    cache.drop_chunk(1, 2);
    assert_eq!(cache.mesh_handle(1, 2, 0), None);
    assert_eq!(cache.material_handle(1, 2, 0, true), None);
    assert_eq!(cache.mesh_handle(1, 3, 0), Some(&11));
}

#[test]
fn filtering_is_applied_once() {
    let mut applied = AppliedTextureFiltering::default();
    assert!(applied.apply(8));
    assert!(!applied.apply(8));
    assert!(applied.apply(1));
}

#[test]
fn parse_results_stay_until_dropped() {
    let mut parse = MmbParseCache::default();
    parse.absorb(1, 2, None);
    parse.absorb(1, 2, Some(some_model()));
    assert!(parse.loaded(1, 2).is_none());
    assert!(parse.by_asset.contains(1, 2));
    parse.drop_chunk(1, 2);
    parse.absorb(1, 2, Some(some_model()));
    assert!(parse.loaded(1, 2).is_some());
    assert_eq!(parse.by_asset.len(), 1);
    let mut in_flight: MmbLoadInFlight<u8> = MmbLoadInFlight::default();
    in_flight.tasks.insert(1, 2, 3);
    in_flight.tasks.insert(2, 1, 4);
    let mut chunks = in_flight.tasks.chunks();
    chunks.sort();
    assert_eq!(chunks, vec![(1, 2), (2, 1)]);
    assert_eq!(in_flight.tasks.remove(1, 2), Some(3));
    assert_eq!(in_flight.tasks.remove(1, 2), None);
}

fn water() -> GenWater {
    GenWater {
        tint: v4(0.1, 0.2, 0.3, 0.5),
        uv_scroll: v2(0.0, 1.0),
        world_min: v3(0.0, 0.0, 0.0),
        world_max: v3(1.0, 1.0, 1.0),
    }
}

#[test]
fn water_has_a_material_of_its_own() {
    let state = RenderState { back_face_culling: true, z_bias_level: 2, depth_write: true };
    let p = plan_material("_m", 0, true, true, state, Some(water()));
    assert_eq!(p.alpha_mode, AlphaMode::Blend);
    assert_eq!(p.tint, v4(0.1, 0.2, 0.3, 0.5));
    assert!(!p.shared && p.blended && p.textured);
    assert!(p.key.mirrored && p.key.generator_stage_chain);
    assert!(!p.key.back_face_culling && !p.key.depth_write);
    assert_eq!(p.key.z_bias_level, 0);
    let q = plan_material("_m", 0, true, false, state, None);
    assert_eq!(q.alpha_mode, AlphaMode::Mask(s(0.375)));
    assert_eq!(q.discard_threshold, s(0.375));
    assert_eq!(q.tint, v4(1.0, 1.0, 1.0, 1.0));
    assert!(q.shared && !q.blended && !q.key.generator_stage_chain);
    assert_eq!(q.key.z_bias_level, 2);
}

#[test]
fn a_negative_determinant_mirrors() {
    assert!(is_mirrored(Some(s(-0.5))));
    assert!(!is_mirrored(Some(s(0.0))));
    assert!(!is_mirrored(Some(s(-0.0))));
    assert!(!is_mirrored(Some(s(f32::NAN))));
    assert!(!is_mirrored(None));
}

fn request(file_id: u32, chunk_idx: usize, x: f32) -> LoadMmbRequest {
    LoadMmbRequest { file_id, chunk_idx, ..zone_placement_at(v3(x, 0.0, 0.0)) }
}

fn distances(queue: &MmbLoadQueue) -> Vec<Scalar> {
    let origin = v3(0.0, 0.0, 0.0);
    queue.pending.iter().map(|r| s(ground(placement_position(r), origin))).collect()
}

struct Stream {
    queue: MmbLoadQueue,
    parse: MmbParseCache,
    pools: MmbTexPools<i32>,
    in_flight: MmbLoadInFlight<u8>,
}

fn stream(requests: Vec<LoadMmbRequest>) -> Stream {
    let mut queue = MmbLoadQueue::default();
    queue.enqueue(&requests);
    Stream {
        queue,
        parse: MmbParseCache::default(),
        pools: MmbTexPools::default(),
        in_flight: MmbLoadInFlight::default(),
    }
}

impl Stream {
    fn run(&mut self, radius: f32, elapsed_ms: u64) -> Vec<PassAction> {
        let d = distances(&self.queue);
        let mut pass = MmbPass::start(&mut self.queue, Some(&d), s(radius * radius), 14);
        let mut out = vec![];
        loop {
            let action = pass.step(&self.parse, &self.pools, &self.in_flight, elapsed_ms);
            match action {
                PassAction::Finished => break,
                PassAction::StartParse(r) => {
                    self.in_flight.tasks.insert(r.file_id, r.chunk_idx, 0);
                }
                PassAction::Place(r) => {
                    self.pools.build_texture_pool(r.file_id, &vec![], vec![]);
                }
                _ => {}
            }
            out.push(action);
        }
        pass.finish(&mut self.queue);
        out
    }

    fn pending(&self) -> Vec<(u32, usize)> {
        self.queue.pending.iter().map(|r| (r.file_id, r.chunk_idx)).collect()
    }
}

#[test]
fn a_pass_goes_from_near_to_far() {
    let entity = LoadMmbRequest { file_id: 9, ..entity_spawn_at(v3(900.0, 0.0, 0.0)) };
    let mut st = stream(vec![
        request(1, 0, 30.0),
        request(1, 1, 10.0),
        request(1, 2, 200.0),
        request(1, 3, 10.0),
        entity,
    ]);
    let actions = st.run(100.0, 0);
    let expected = vec![
        PassAction::StartParse(entity),
        PassAction::StartParse(request(1, 1, 10.0)),
        PassAction::StartParse(request(1, 3, 10.0)),
        PassAction::StartParse(request(1, 0, 30.0)),
    ];
    assert_eq!(actions, expected);
    assert_eq!(st.pending(), vec![(9, 0), (1, 1), (1, 3), (1, 0), (1, 2)]);
    let again = st.run(100.0, 0);
    assert!(again.iter().all(|a| matches!(a, PassAction::Wait(_))));
}

#[test]
fn a_pass_places_what_is_loaded() {
    let by_hand = LoadMmbRequest { file_id: 4, ..entity_spawn_at(v3(0.0, 0.0, 0.0)) };
    let mut st = stream(vec![
        request(1, 0, 1.0),
        request(2, 0, 2.0),
        request(3, 0, 3.0),
        by_hand,
    ]);
    st.parse.absorb(1, 0, Some(some_model()));
    st.parse.absorb(2, 0, None);
    st.parse.absorb(3, 0, Some(loaded(&[])));
    st.parse.absorb(4, 0, Some(loaded(&[])));
    let actions = st.run(100.0, 0);
    assert_eq!(
        actions,
        vec![
            PassAction::NothingToDraw { request: by_hand, announce: true },
            PassAction::Place(request(1, 0, 1.0)),
            PassAction::LoadFailed(request(2, 0, 2.0)),
            PassAction::NothingToDraw { request: request(3, 0, 3.0), announce: false },
        ]
    );
    assert!(st.pending().is_empty());
    assert!(!st.queue.budget_deferred);
}

#[test]
fn a_pass_out_of_time_places_one_model() {
    let mut st = stream(vec![request(1, 0, 1.0), request(1, 0, 2.0), request(1, 0, 3.0)]);
    st.parse.absorb(1, 0, Some(some_model()));
    assert_eq!(st.run(100.0, 14), vec![PassAction::Place(request(1, 0, 1.0))]);
    assert_eq!(st.pending().len(), 2);
    assert!(st.queue.budget_deferred);
    let p = Some(v3(0.0, 0.0, 0.0));
    assert!(st.queue.begin_pass(false, false, false, p, s(0.0)));
    assert!(!st.queue.budget_deferred);
    assert_eq!(st.queue.last_eval_pos, p);
    assert!(!st.queue.begin_pass(false, false, false, p, s(0.0)));
}

#[test]
fn a_pass_stops_at_the_ceiling() {
    let requests: Vec<LoadMmbRequest> = (0..200).map(|i| request(i, 0, 1.0)).collect();
    let mut st = stream(requests);
    for i in 0..200 {
        st.parse.absorb(i, 0, Some(some_model()));
    }
    assert_eq!(st.run(100.0, 0).len(), 128);
    assert!(st.queue.budget_deferred);
    assert_eq!(st.pending().len(), 72);
}

#[test]
fn no_more_tasks_run_than_may() {
    let mut st = stream((0..100).map(|i| request(i, 0, 1.0)).collect());
    let started =
        st.run(100.0, 0).iter().filter(|a| matches!(a, PassAction::StartParse(_))).count();
    assert_eq!(started, 64);
    assert_eq!(st.in_flight.tasks.len(), 64);
    assert_eq!(st.pending().len(), 100);
}

#[test]
fn without_a_point_requests_keep_their_order() {
    let mut st = stream(vec![request(1, 0, 900.0), request(2, 0, 1.0)]);
    let mut pass = MmbPass::start(&mut st.queue, None, s(1.0), 14);
    let first = pass.step(&st.parse, &st.pools, &st.in_flight, 0);
    assert_eq!(first, PassAction::StartParse(request(1, 0, 900.0)));
    let second = pass.step(&st.parse, &st.pools, &st.in_flight, 0);
    assert_eq!(second, PassAction::StartParse(request(2, 0, 1.0)));
    assert_eq!(pass.step(&st.parse, &st.pools, &st.in_flight, 0), PassAction::Finished);
}

#[test]
fn budgets_follow_the_setting() {
    assert_eq!(frame_budget_ms(true, None), 160);
    assert_eq!(frame_budget_ms(false, None), 14);
    assert_eq!(frame_budget_ms(true, Some(3)), 3);
}

#[test]
fn placements_are_planned() {
    let zone = LoadMmbRequest { sub_area_link: 5, ..request(1, 2, 0.0) };
    assert!(is_zone_placement(&zone));
    let p = plan_placement(&zone, false);
    assert!(p.zone_spawn && p.static_placement && !p.attach && !p.announce);
    assert_eq!((p.sub_area_link, p.missing_entity), (Some(5), None));
    let e = plan_placement(&entity_spawn_at(v3(0.0, 0.0, 0.0)), true);
    assert!(e.attach && !e.static_placement && e.announce && !e.zone_spawn);
    let m = plan_placement(&entity_spawn_at(v3(0.0, 0.0, 0.0)), false);
    assert_eq!(m.missing_entity, Some(7));
    assert!(m.static_placement && m.announce);
    assert_eq!(plan_placement(&request(1, 2, 0.0), false).sub_area_link, None);
}

#[test]
fn messages_are_worded() {
    assert_eq!(nothing_to_draw_message(1, 2), "/load_mmb 1 2: 0 renderable sub-records");
    assert_eq!(load_failed_message(1, 2), "/load_mmb 1 2: load failed");
    assert_eq!(
        missing_entity_message(7, 1, 2),
        "/load_mmb_on 7 1 2: no tracked entity for id 7 \u{2014} spawning at world_pos instead"
    );
    assert_eq!(
        spawned_message(1, 2, 1, &entity_place(7), 0),
        "/load_mmb 1 2: spawned 1 sub-mesh on entity 7 (no texture)"
    );
    assert_eq!(
        spawned_message(1, 2, 3, "at (0.0, 1.0, 2.0)", 1),
        "/load_mmb 1 2: spawned 3 sub-meshes at (0.0, 1.0, 2.0) +1 texture"
    );
    assert_eq!(
        spawned_message(1, 2, 3, "x", 12),
        "/load_mmb 1 2: spawned 3 sub-meshes x +12 textures"
    );
}

fn placed(entity: u64, file_id: u32, chunk_idx: usize, distance_squared: f32) -> ZonePlacement {
    ZonePlacement {
        entity,
        request: request(file_id, chunk_idx, 0.0),
        slot: ZONE_SLOT_MAIN,
        distance_squared: s(distance_squared),
    }
}

#[test]
fn what_retires_leaves_nothing_of_its_own() {
    let mut st = stream(vec![request(8, 8, 0.0)]);
    let mut handles: MmbHandleCache<i32, i32> = MmbHandleCache::default();
    let mut bank = TextureBank::new();
    for (file, chunk) in [(1, 0), (1, 1), (2, 0), (3, 0)] {
        st.parse.absorb(file, chunk, None);
        handles.keep_mesh(file, chunk, 0, 1);
        handles.keep_material(file, chunk, 0, false, 1);
        st.in_flight.tasks.insert(file, chunk, 0);
        st.pools.build_texture_pool(file, &vec![], vec![]);
        bank.shared_set(file, Arc::new(vec![]));
    }
    let placements = vec![
        placed(10, 1, 0, 500.0),
        placed(11, 1, 1, 5.0),
        placed(12, 2, 0, 500.0),
        placed(13, 3, 0, 500.0),
        placed(14, 3, 0, 100.0),
        ZonePlacement { slot: 4, ..placed(15, 3, 0, 500.0) },
    ];
    let gone = retire_far_zone_placements(
        &placements,
        ZONE_SLOT_MAIN,
        s(100.0),
        &mut st.queue,
        &mut st.parse,
        &mut handles,
        &mut st.pools,
        &mut st.in_flight,
        &mut bank,
    );
    assert_eq!(gone, vec![10, 12, 13]);
    assert_eq!(st.pending(), vec![(8, 8), (1, 0), (2, 0), (3, 0)]);
    let left = |f: u32, c: usize| {
        (
            st.parse.by_asset.contains(f, c),
            handles.mesh_handle(f, c, 0).is_some(),
            handles.material_handle(f, c, 0, false).is_some(),
            st.in_flight.tasks.contains(f, c),
        )
    };
    assert_eq!(left(1, 0), (false, false, false, false));
    assert_eq!(left(1, 1), (true, true, true, true));
    assert_eq!(left(2, 0), (false, false, false, false));
    assert_eq!(left(3, 0), (true, true, true, true));
    assert!(st.pools.contains(1) && !st.pools.contains(2) && st.pools.contains(3));
    assert!(bank.contains(1) && !bank.contains(2) && bank.contains(3));
}

#[test]
fn the_scan_waits_for_movement() {
    let here = Some(v3(1.0, 2.0, 3.0));
    let mut last = None;
    assert!(!retire_scan_needed(None, &mut last, s(0.0), true));
    assert!(retire_scan_needed(here, &mut last, s(0.0), false));
    assert_eq!(last, here);
    assert!(!retire_scan_needed(here, &mut last, s(1.0), false));
    assert!(retire_scan_needed(here, &mut last, s(1.5), false));
    assert!(retire_scan_needed(here, &mut last, s(0.0), true));
    assert_eq!(RETIRE_MARGIN_BITS, 1.5f32.to_bits());
}

#[test]
fn what_is_placed_at_the_edge_stays() {
    let load_radius = 100.0f32;
    let mut st = stream(vec![request(1, 0, 100.0), request(1, 0, 100.01)]);
    st.parse.absorb(1, 0, Some(some_model()));
    assert_eq!(st.run(load_radius, 0), vec![PassAction::Place(request(1, 0, 100.0))]);
    assert!(!retires([0.0, 0.0, 0.0], [100.0, 0.0, 0.0], load_radius));
    assert!(!retires([0.0, 0.0, 0.0], [150.0, 0.0, 0.0], load_radius));
    assert!(retires([0.0, 0.0, 0.0], [150.01, 0.0, 0.0], load_radius));
}

#[test]
fn every_request_of_a_pass_ends_in_one_place() {
    let mut st = stream(vec![
        request(1, 0, 1.0),
        request(1, 0, 1.0),
        request(2, 0, 2.0),
        request(3, 0, 3.0),
        request(4, 0, 4.0),
        request(5, 0, 900.0),
    ]);
    st.parse.absorb(1, 0, Some(some_model()));
    st.parse.absorb(2, 0, None);
    st.parse.absorb(3, 0, Some(loaded(&[])));
    let actions = st.run(100.0, 0);
    let placed = actions.iter().filter(|a| matches!(a, PassAction::Place(_))).count();
    let failed = actions.iter().filter(|a| matches!(a, PassAction::LoadFailed(_))).count();
    let empty =
        actions.iter().filter(|a| matches!(a, PassAction::NothingToDraw { .. })).count();
    assert_eq!((placed, failed, empty), (2, 1, 1));
    assert_eq!(st.pending(), vec![(4, 0), (5, 0)]);
    assert_eq!(st.in_flight.tasks.chunks(), vec![(4, 0)]);
}
