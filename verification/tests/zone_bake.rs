use kuluu::geometry::{Mat4, Vec2, Vec3, Vec4};
use kuluu::mmb_cache::{MmbParseCache, TexturePool};
use kuluu::mmb_load::{LoadedMmb, MmbSubMesh, NamedTexture};
use kuluu::mmb_material::{AlphaMode, RenderState};
use kuluu::scalar::Scalar;
use kuluu::stable_order::stable_order;
use kuluu::zone_bake::{
    bake_chunks, baked_message, chunks_to_parse, kick_zone_bake, merge_bake_placements,
    plan_baked_bucket, poll_zone_bake, ActiveBake, BakeBucket, BakeBucketKey, BakeStatus, PlacedMesh,
    PlacedModel, ZoneBakeState, ZoneMmbSpawn,
};
use std::sync::Arc;

fn s(x: f32) -> Scalar {
    Scalar::from_bits(x.to_bits())
}

fn v3(x: f32) -> Vec3 {
    Vec3 { x: s(x), y: s(0.0), z: s(0.0) }
}

fn v4(x: f32) -> Vec4 {
    Vec4 { x: s(x), y: s(x), z: s(x), w: s(x) }
}

fn spawn(chunk_idx: usize, sub_area_link: u32) -> ZoneMmbSpawn {
    let m = Mat4 { x_axis: v4(0.0), y_axis: v4(0.0), z_axis: v4(0.0), w_axis: v4(0.0) };
    ZoneMmbSpawn { chunk_idx, transform: m, sub_area_link }
}

fn mesh(name: &str, x: f32, indices: &[u32]) -> MmbSubMesh {
    MmbSubMesh {
        variant_name: name.to_string(),
        positions: vec![v3(x), v3(x + 1.0)],
        normals: vec![v3(1.0), v3(1.0)],
        uvs: vec![Vec2 { x: s(x), y: s(0.0) }; 2],
        colors: vec![v4(x); 2],
        indices: indices.to_vec(),
        blending: 0x8000,
    }
}

fn model(submeshes: Vec<MmbSubMesh>) -> Option<LoadedMmb> {
    Some(LoadedMmb {
        submeshes,
        textures: Arc::new(Vec::<NamedTexture>::new()),
        asset_name: "a".to_string(),
        zone_mesh_name: "zone".to_string(),
    })
}

/// The model moved along, as a transform would.
fn moved(model: &LoadedMmb, by: f32, determinant: f32) -> PlacedModel {
    let shift = |v: &Vec<Vec3>| -> Vec<Vec3> {
        v.iter().map(|p| v3(f32::from_bits(p.x.bits) + by)).collect()
    };
    PlacedModel {
        determinant: s(determinant),
        meshes: model
            .submeshes
            .iter()
            .map(|m| PlacedMesh { positions: shift(&m.positions), normals: m.normals.clone() })
            .collect(),
    }
}

fn nothing() -> PlacedModel {
    PlacedModel { determinant: s(1.0), meshes: vec![] }
}

#[test]
fn chunks_come_in_the_order_of_first_use() {
    let spawns: Vec<ZoneMmbSpawn> = [4, 2, 4, 9, 2].iter().map(|c| spawn(*c, 0)).collect();
    assert_eq!(bake_chunks(&spawns), vec![4, 2, 9]);
    let mut parse = MmbParseCache::default();
    parse.absorb(7, 2, None);
    assert_eq!(chunks_to_parse(&parse, 7, &spawns), vec![4, 9]);
    assert_eq!(chunks_to_parse(&parse, 8, &spawns), vec![4, 2, 9]);
}

fn started(parse: &MmbParseCache, spawns: Vec<ZoneMmbSpawn>) -> ZoneBakeState<char> {
    let mut bake = ZoneBakeState::default();
    let tasks = chunks_to_parse(parse, 7, &spawns).into_iter().map(|c| (c, 't')).collect();
    kick_zone_bake(&mut bake, parse, 7, 1, v3(5.0), spawns, tasks);
    bake
}

#[test]
fn a_zone_waits_for_its_own_bake_only() {
    let parse = MmbParseCache::default();
    let mut bake: ZoneBakeState<char> = ZoneBakeState::default();
    assert!(bake.main_bake_ready(7));
    bake = started(&parse, vec![spawn(1, 0)]);
    assert_eq!(bake.status, Some((7, 1, BakeStatus::InProgress)));
    assert!(!bake.main_bake_ready(7));
    assert!(bake.main_bake_ready(8));
    bake.clear();
    assert!(bake.main_bake_ready(7));
    assert!(bake.active.is_none());
}

#[test]
fn merging_waits_for_every_chunk() {
    let mut parse = MmbParseCache::default();
    parse.absorb(7, 1, None);
    let mut bake = started(&parse, vec![spawn(1, 0), spawn(2, 0), spawn(3, 0)]);
    let mut active: ActiveBake<char> = bake.active.take().unwrap();
    assert_eq!(active.tasks.len(), 2);
    assert!(active.done.contains(&1) && !active.done.contains(&2));
    assert!(!active.ready_to_merge());
    assert_eq!(active.finish_task(&mut parse, 0, None), 't');
    assert_eq!(active.tasks, vec![(3, 't')]);
    assert!(!active.ready_to_merge());
    active.finish_task(&mut parse, 0, model(vec![]));
    assert!(active.ready_to_merge());
    assert_eq!(active.merge_end(), 3);
    assert!(parse.loaded(7, 3).is_some());
    assert!(parse.by_asset.contains(7, 2));
}

fn merged() -> (ZoneBakeState<char>, ActiveBake<char>, MmbParseCache) {
    let mut parse = MmbParseCache::default();
    let mut bare = mesh("bare", 20.0, &[0, 1, 1]);
    bare.normals = vec![];
    parse.absorb(
        7,
        1,
        model(vec![mesh(" wood ", 0.0, &[0, 1, 0]), mesh("empty", 9.0, &[]), bare]),
    );
    parse.absorb(7, 2, None);
    let spawns = vec![spawn(1, 0), spawn(2, 0), spawn(1, 0), spawn(1, 6), spawn(1, 0)];
    let mut bake = started(&parse, spawns);
    let mut active = bake.active.take().unwrap();
    let l = parse.loaded(7, 1).unwrap();
    let placed =
        vec![moved(l, 100.0, 1.0), nothing(), moved(l, 200.0, 1.0), moved(l, 300.0, 1.0)];
    merge_bake_placements(&mut active, &parse, 4, &placed);
    assert_eq!(active.merged, 4);
    let rest = vec![moved(l, 400.0, -1.0)];
    merge_bake_placements(&mut active, &parse, 99, &rest);
    assert_eq!(active.merged, 5);
    (bake, active, parse)
}

#[test]
fn placements_merge_by_chunk_submesh_winding_and_interior() {
    let (_, active, _) = merged();
    let keys: Vec<(usize, usize, bool, u32)> = active
        .buckets
        .iter()
        .map(|(k, _)| (k.chunk_idx, k.sub_index, k.mirrored, k.sub_area_link))
        .collect();
    assert_eq!(
        keys,
        vec![
            (1, 0, false, 0),
            (1, 2, false, 0),
            (1, 0, false, 6),
            (1, 2, false, 6),
            (1, 0, true, 0),
            (1, 2, true, 0),
        ]
    );
    let b = &active.buckets[0].1;
    assert_eq!(b.variant_name, "wood");
    assert_eq!(b.zone_mesh_name, "zone");
    assert_eq!(b.blending, 0x8000);
    assert_eq!(b.positions, vec![v3(100.0), v3(101.0), v3(200.0), v3(201.0)]);
    assert_eq!(b.normals.len(), 4);
    assert_eq!(b.uvs.len(), 4);
    assert_eq!(b.colors.len(), 4);
    assert_eq!(b.indices, vec![0, 1, 0, 2, 3, 2]);
    let bare = &active.buckets[1].1;
    assert_eq!(bare.indices, vec![0, 1, 1, 2, 3, 3]);
    assert_eq!((bare.positions.len(), bare.normals.len()), (4, 0));
}

#[test]
fn a_bake_spawns_every_mesh_once_and_is_done() {
    let (mut bake, active, _) = merged();
    let (out, done) = poll_zone_bake(&mut bake, active);
    assert_eq!(out.len(), 6);
    assert_eq!(out[4].0.mirrored, true);
    assert_eq!(done, Some(5));
    assert_eq!(bake.status, Some((7, 1, BakeStatus::Done)));
    assert!(bake.main_bake_ready(7));
    assert!(bake.active.is_none());
    assert_eq!(baked_message(7, 5), "/load_mzb 7: baked textured zone (5 placements)");
}

fn bucket(x: usize) -> (BakeBucketKey, BakeBucket) {
    (
        BakeBucketKey { chunk_idx: x, sub_index: 0, mirrored: false, sub_area_link: 0 },
        BakeBucket {
            zone_mesh_name: "zone".to_string(),
            variant_name: "v".to_string(),
            blending: 0x8000,
            positions: vec![],
            normals: vec![],
            uvs: vec![],
            colors: vec![],
            indices: vec![],
        },
    )
}

#[test]
fn a_frame_spawns_no_more_than_its_share() {
    let parse = MmbParseCache::default();
    let mut bake = started(&parse, vec![]);
    let mut active = bake.active.take().unwrap();
    active.buckets = (0..30).map(bucket).collect();
    let (out, done) = poll_zone_bake(&mut bake, active);
    let order: Vec<usize> = out.iter().map(|(k, _)| k.chunk_idx).collect();
    assert_eq!(order, (0..24).collect::<Vec<usize>>());
    assert_eq!(done, None);
    assert!(!bake.main_bake_ready(7));
    let active = bake.active.take().unwrap();
    assert_eq!((active.pending.len(), active.buckets.len()), (6, 6));
    let (out, done) = poll_zone_bake(&mut bake, active);
    assert_eq!(out[0].0.chunk_idx, 24);
    assert_eq!((out.len(), done), (6, Some(0)));
}

#[test]
fn a_bake_that_is_not_merged_spawns_nothing() {
    let parse = MmbParseCache::default();
    let mut bake = started(&parse, vec![spawn(1, 0)]);
    let active = bake.active.take().unwrap();
    let (out, done) = poll_zone_bake(&mut bake, active);
    assert!(out.is_empty() && done.is_none());
    assert!(bake.active.is_some());
}

#[test]
fn a_long_list_is_merged_in_batches() {
    let mut parse = MmbParseCache::default();
    parse.absorb(7, 1, None);
    let mut bake = started(&parse, vec![spawn(1, 0); 5000]);
    let mut active = bake.active.take().unwrap();
    assert_eq!(active.merge_end(), 4096);
    let placed: Vec<PlacedModel> = (0..4096).map(|_| nothing()).collect();
    merge_bake_placements(&mut active, &parse, 4096, &placed);
    assert_eq!(active.merged, 4096);
    assert_eq!(active.merge_end(), 5000);
}

#[test]
fn a_merged_mesh_is_drawn_like_its_parts() {
    let (key, b) = bucket(1);
    let textures = vec![];
    let pool: TexturePool<i32> = TexturePool::build(&textures, vec![]);
    let state = RenderState { back_face_culling: true, z_bias_level: 1, depth_write: false };
    let (texture, plan, shadowless) = plan_baked_bucket(&b, &key, &pool, state);
    assert_eq!(texture, None);
    assert_eq!(plan.alpha_mode, AlphaMode::Opaque);
    assert!(!shadowless && plan.key.back_face_culling);
    let pool = TexturePool { handles: vec![Some(3)], by_name: vec![] };
    let (texture, plan, shadowless) = plan_baked_bucket(&b, &key, &pool, state);
    assert_eq!(texture, Some(&3));
    assert_eq!(plan.alpha_mode, AlphaMode::Blend);
    assert!(shadowless && plan.blended && plan.shared);
}

#[test]
fn equal_keys_keep_their_order() {
    assert_eq!(stable_order(&vec![3, 1, 3, 2, 1]), vec![1, 4, 3, 0, 2]);
    assert_eq!(stable_order(&vec![]), Vec::<usize>::new());
}

#[test]
fn batches_give_what_one_merge_gives() {
    let mut parse = MmbParseCache::default();
    parse.absorb(7, 1, model(vec![mesh("a", 0.0, &[0, 1, 1]), mesh("b", 5.0, &[1, 0, 1])]));
    let spawns = vec![spawn(1, 0), spawn(1, 2), spawn(1, 0)];
    let placed = |from: usize, to: usize| -> Vec<PlacedModel> {
        let l = parse.loaded(7, 1).unwrap();
        (from..to).map(|i| moved(l, i as f32, 1.0)).collect()
    };
    let mut one = started(&parse, spawns.clone()).active.take().unwrap();
    merge_bake_placements(&mut one, &parse, 3, &placed(0, 3));
    let mut two = started(&parse, spawns).active.take().unwrap();
    merge_bake_placements(&mut two, &parse, 1, &placed(0, 1));
    merge_bake_placements(&mut two, &parse, 3, &placed(1, 3));
    assert_eq!(one.buckets.len(), 4);
    for ((ka, a), (kb, b)) in one.buckets.iter().zip(two.buckets.iter()) {
        assert_eq!(ka, kb);
        assert_eq!(a.positions, b.positions);
        assert_eq!(a.indices, b.indices);
        assert_eq!(a.normals.len(), a.positions.len());
        assert_eq!(a.uvs.len(), a.positions.len());
        assert_eq!(a.colors.len(), a.positions.len());
        assert_eq!(a.indices.len() % 3, 0);
        assert!(a.indices.iter().all(|i| (*i as usize) < a.positions.len()));
    }
}

#[test]
fn merging_again_keeps_what_was_merged() {
    let mut parse = MmbParseCache::default();
    let mut bare = mesh("bare", 0.0, &[0, 1]);
    bare.normals = vec![];
    bare.uvs = vec![];
    parse.absorb(7, 1, model(vec![bare]));
    let mut active = started(&parse, vec![spawn(1, 0), spawn(1, 0)]).active.take().unwrap();
    let l = parse.loaded(7, 1).unwrap();
    merge_bake_placements(&mut active, &parse, 1, &vec![moved(l, 10.0, 1.0)]);
    let before = (active.buckets[0].1.positions.clone(), active.buckets[0].1.indices.clone());
    merge_bake_placements(&mut active, &parse, 0, &vec![]);
    assert_eq!(active.merged, 1);
    merge_bake_placements(&mut active, &parse, 2, &vec![moved(l, 20.0, 1.0)]);
    let b = &active.buckets[0].1;
    assert!(b.positions.starts_with(&before.0) && b.indices.starts_with(&before.1));
    assert_eq!(b.indices, vec![0, 1, 2, 3]);
    assert!(b.indices.iter().all(|i| (*i as usize) < b.positions.len()));
    assert_eq!((active.merged, b.normals.len(), b.uvs.len()), (2, 0, 0));
}
