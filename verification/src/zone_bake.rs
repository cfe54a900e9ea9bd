//! Baking a whole zone: every placement is merged into one mesh for each chunk,
//! submesh, winding and interior, and the meshes are then drawn as they are.
use crate::geometry::{Mat4, Vec2, Vec3, Vec4};
use crate::kept::{count_kept, filtering_keeps_in_order};
use crate::mmb_cache::{chosen_place, MmbParseCache, TexturePool};
use crate::mmb_load::{well_formed_mesh, LoadedMmb, MeshData, MmbSubMesh};
use crate::mmb_material::{
    is_mirrored, material_of, mirroring, plan_material, AlphaMode, MaterialPlan, RenderState,
};
use crate::scalar::Scalar;
use crate::text::{decimal, decimal_text, trim, trimmed};
use std::collections::{HashSet, VecDeque};
use vstd::prelude::*;

verus! {

broadcast use vstd::std_specs::hash::group_hash_axioms;

/// How many placements are merged in one frame.
pub const BAKE_MERGE_PLACEMENTS_PER_FRAME: usize = 4096;

/// How many merged meshes are spawned in one frame.
pub const BAKE_SPAWN_BUCKETS_PER_FRAME: usize = 24;

/// Whether a bake is still being put together.
#[derive(Clone, Copy, PartialEq, Eq, Debug, Structural)]
pub enum BakeStatus {
    InProgress,
    Done,
}

/// A placement that the bake covers.
#[derive(Clone, Copy, PartialEq, Eq, Debug, Structural)]
pub struct ZoneMmbSpawn {
    pub chunk_idx: usize,
    pub transform: Mat4,
    pub sub_area_link: u32,
}

/// What goes into one mesh.
#[derive(Clone, Copy, PartialEq, Eq, Debug, Hash, Structural)]
pub struct BakeBucketKey {
    pub chunk_idx: usize,
    pub sub_index: usize,
    pub mirrored: bool,
    pub sub_area_link: u32,
}

/// The geometry that has been merged into one mesh.
pub struct BakeBucket {
    pub zone_mesh_name: String,
    pub variant_name: String,
    pub blending: u16,
    pub positions: Vec<Vec3>,
    pub normals: Vec<Vec3>,
    pub uvs: Vec<Vec2>,
    pub colors: Vec<Vec4>,
    pub indices: Vec<u32>,
}

/// The vertices of one submesh, where a placement puts them.
pub struct PlacedMesh {
    pub positions: Vec<Vec3>,
    pub normals: Vec<Vec3>,
}

/// What a placement makes of a model: the determinant of its transform, and the
/// submeshes where it puts them.
pub struct PlacedModel {
    pub determinant: Scalar,
    pub meshes: Vec<PlacedMesh>,
}

/// A bake under way. The tasks are those that parse chunks.
pub struct ActiveBake<T> {
    pub file_id: u32,
    pub slot: u8,
    pub world_pos: Vec3,
    /// The placements that the bake covers.
    pub spawns: Vec<ZoneMmbSpawn>,
    /// The chunks that they use, each once, in the order of first use.
    pub chunks: Vec<usize>,
    /// The chunks that are parsed.
    pub done: HashSet<usize>,
    pub tasks: Vec<(usize, T)>,
    /// How many of the placements are merged.
    pub merged: usize,
    /// The meshes, in the order in which they were begun.
    pub buckets: Vec<(BakeBucketKey, BakeBucket)>,
    /// The meshes that are to be spawned, in that order.
    pub pending: VecDeque<BakeBucketKey>,
}

/// The bake of the zone: for which file and block, whether it is done, and the
/// work that is left.
pub struct ZoneBakeState<T> {
    pub status: Option<(u32, u8, BakeStatus)>,
    pub active: Option<ActiveBake<T>>,
}

/// Nothing has to be waited for: no bake of this file is still being put
/// together.
pub open spec fn bake_ready(status: Option<(u32, u8, BakeStatus)>, file_id: u32) -> bool {
    !(status matches Some((f, _, BakeStatus::InProgress)) && f == file_id)
}

/// A zone waits from the start of its own bake until that is done, and never for
/// the bake of another file or without one.
pub proof fn a_zone_waits_for_its_own_bake(file_id: u32, slot: u8, other: u32)
    ensures
        !bake_ready(Some((file_id, slot, BakeStatus::InProgress)), file_id),
        bake_ready(Some((file_id, slot, BakeStatus::Done)), other),
        bake_ready(None, other),
        other != file_id ==> bake_ready(Some((file_id, slot, BakeStatus::InProgress)), other),
{
}

impl<T> Default for ZoneBakeState<T> {
    fn default() -> (b: ZoneBakeState<T>)
        ensures
            b.status is None,
            b.active is None,
    {
        ZoneBakeState { status: None, active: None }
    }
}

impl<T> ZoneBakeState<T> {
    /// Whether nothing has to be waited for: not a bake of this file that is
    /// still being put together.
    pub fn main_bake_ready(&self, file_id: u32) -> (b: bool)
        ensures
            b == bake_ready(self.status, file_id),
    {
        match self.status {
            Some((f, _, BakeStatus::InProgress)) => f != file_id,
            _ => true,
        }
    }

    /// Drops the bake.
    pub fn clear(&mut self)
        ensures
            final(self).status is None,
            final(self).active is None,
    {
        self.status = None;
        self.active = None;
    }
}

/// The chunks that placements use, each once, in the order of first use.
pub open spec fn first_uses(spawns: Seq<ZoneMmbSpawn>) -> Seq<usize>
    decreases spawns.len(),
{
    if spawns.len() == 0 {
        Seq::empty()
    } else {
        let before = first_uses(spawns.drop_last());
        if before.contains(spawns.last().chunk_idx) {
            before
        } else {
            before.push(spawns.last().chunk_idx)
        }
    }
}

/// Every chunk in use is listed, once.
pub proof fn first_uses_are_distinct_and_complete(spawns: Seq<ZoneMmbSpawn>)
    ensures
        first_uses(spawns).no_duplicates(),
        forall|i: int|
            0 <= i < spawns.len() ==> first_uses(spawns).contains(
                (#[trigger] spawns[i]).chunk_idx,
            ),
        forall|c: usize| #[trigger]
            first_uses(spawns).contains(c) ==> exists|i: int|
                0 <= i < spawns.len() && (#[trigger] spawns[i]).chunk_idx == c,
    decreases spawns.len(),
{
    if spawns.len() > 0 {
        let shorter = spawns.drop_last();
        let before = first_uses(shorter);
        let last = spawns.last().chunk_idx;
        first_uses_are_distinct_and_complete(shorter);
        let now = first_uses(spawns);
        assert forall|i: int| 0 <= i < spawns.len() implies now.contains(
            (#[trigger] spawns[i]).chunk_idx,
        ) by {
            if i < shorter.len() {
                assert(shorter[i] == spawns[i]);
                let k = choose|k: int| 0 <= k < before.len() && before[k] == spawns[i].chunk_idx;
                assert(now[k] == before[k]);
            } else if !before.contains(last) {
                assert(now[before.len() as int] == last);
            }
        }
        assert forall|c: usize| #[trigger] now.contains(c) implies exists|i: int|
            0 <= i < spawns.len() && (#[trigger] spawns[i]).chunk_idx == c by {
            if before.contains(c) {
                let i = choose|i: int| 0 <= i < shorter.len() && (#[trigger] shorter[i]).chunk_idx == c;
                assert(spawns[i].chunk_idx == c);
            } else {
                assert(c == last);
                assert(spawns[spawns.len() - 1].chunk_idx == c);
            }
        }
    }
}

/// Chunks are listed in the order in which placements first use them: one that
/// is listed before another is used by a placement before any that uses the
/// other.
pub proof fn first_uses_come_in_order(spawns: Seq<ZoneMmbSpawn>, a: int, b: int) -> (i: int)
    requires
        0 <= a < b < first_uses(spawns).len(),
    ensures
        0 <= i < spawns.len(),
        spawns[i].chunk_idx == first_uses(spawns)[a],
        forall|j: int|
            0 <= j < spawns.len() && (#[trigger] spawns[j]).chunk_idx == first_uses(spawns)[b]
                ==> i < j,
    decreases spawns.len(),
{
    let shorter = spawns.drop_last();
    let before = first_uses(shorter);
    first_uses_are_distinct_and_complete(shorter);
    first_uses_are_distinct_and_complete(spawns);
    if b < before.len() {
        let i = first_uses_come_in_order(shorter, a, b);
        assert(spawns[i] == shorter[i]);
        assert forall|j: int|
            0 <= j < spawns.len() && (#[trigger] spawns[j]).chunk_idx == first_uses(
                spawns,
            )[b] implies i < j by {
            if j < shorter.len() {
                assert(shorter[j] == spawns[j]);
            }
        }
        i
    } else {
        let c = before[a];
        assert(before.contains(c));
        let i = choose|i: int| 0 <= i < shorter.len() && (#[trigger] shorter[i]).chunk_idx == c;
        assert(spawns[i] == shorter[i]);
        assert forall|j: int|
            0 <= j < spawns.len() && (#[trigger] spawns[j]).chunk_idx == first_uses(
                spawns,
            )[b] implies i < j by {
            if j < shorter.len() {
                assert(shorter[j] == spawns[j]);
                assert(before.contains(shorter[j].chunk_idx));
            }
        }
        i
    }
}

fn contains_chunk(chunks: &Vec<usize>, chunk: usize) -> (b: bool)
    ensures
        b == chunks@.contains(chunk),
{
    let mut i: usize = 0;
    while i < chunks.len()
        invariant
            i <= chunks.len(),
            forall|j: int| 0 <= j < i ==> chunks@[j] != chunk,
        decreases chunks.len() - i,
    {
        if chunks[i] == chunk {
            return true;
        }
        i = i + 1;
    }
    false
}

/// The chunks that placements use, each once, in the order of first use.
pub fn bake_chunks(spawns: &Vec<ZoneMmbSpawn>) -> (chunks: Vec<usize>)
    ensures
        chunks@ == first_uses(spawns@),
{
    let mut chunks: Vec<usize> = Vec::new();
    let mut i: usize = 0;
    while i < spawns.len()
        invariant
            i <= spawns.len(),
            chunks@ == first_uses(spawns@.take(i as int)),
        decreases spawns.len() - i,
    {
        proof {
            assert(spawns@.take(i as int + 1).drop_last() =~= spawns@.take(i as int));
        }
        if !contains_chunk(&chunks, spawns[i].chunk_idx) {
            chunks.push(spawns[i].chunk_idx);
        }
        i = i + 1;
    }
    assert(spawns@.take(spawns@.len() as int) =~= spawns@);
    chunks
}

/// The chunks of a file that have no parse result yet.
pub open spec fn unparsed(parse: MmbParseCache, file_id: u32, chunks: Seq<usize>) -> Seq<usize> {
    chunks.filter(|c: usize| !parse.by_asset@.contains_key((file_id, c)))
}

/// The chunks that have to be given to tasks before a bake of the placements
/// starts, in the order of first use.
pub fn chunks_to_parse(parse: &MmbParseCache, file_id: u32, spawns: &Vec<ZoneMmbSpawn>) -> (out: Vec<
    usize,
>)
    ensures
        out@ == unparsed(*parse, file_id, first_uses(spawns@)),
{
    let chunks = bake_chunks(spawns);
    let mut out: Vec<usize> = Vec::new();
    let mut i: usize = 0;
    let ghost keep = |c: usize| !parse.by_asset@.contains_key((file_id, c));
    assert(out@ =~= unparsed(*parse, file_id, chunks@.take(0)));
    while i < chunks.len()
        invariant
            i <= chunks.len(),
            keep == (|c: usize| !parse.by_asset@.contains_key((file_id, c))),
            out@ == unparsed(*parse, file_id, chunks@.take(i as int)),
        decreases chunks.len() - i,
    {
        proof {
            assert(chunks@.take(i as int + 1).drop_last() =~= chunks@.take(i as int));
            reveal(Seq::filter);
        }
        if !parse.by_asset.contains(file_id, chunks[i]) {
            out.push(chunks[i]);
        }
        i = i + 1;
    }
    assert(chunks@.take(chunks@.len() as int) =~= chunks@);
    out
}

/// A chunk is to be parsed if it is in use and has no parse result. The chunks
/// come in their order: one behind as many as are to be parsed before it.
pub proof fn unparsed_chunks_come_in_order(
    parse: MmbParseCache,
    file_id: u32,
    chunks: Seq<usize>,
    i: int,
)
    requires
        0 <= i < chunks.len(),
    ensures
        ({
            let missing = |c: usize| !parse.by_asset@.contains_key((file_id, c));
            let out = unparsed(parse, file_id, chunks);
            let place = count_kept(chunks, missing, i);
            &&& out.len() == count_kept(chunks, missing, chunks.len() as int)
            &&& !parse.by_asset@.contains_key((file_id, chunks[i])) ==> 0 <= place < out.len()
                && out[place] == chunks[i]
        }),
{
    let missing = |c: usize| !parse.by_asset@.contains_key((file_id, c));
    filtering_keeps_in_order(chunks, missing, i);
}

/// The chunks of tasks.
pub open spec fn task_chunks<T>(tasks: Seq<(usize, T)>) -> Seq<usize> {
    tasks.map_values(|t: (usize, T)| t.0)
}

/// Starts the bake of a zone that was just loaded. The tasks are those that
/// parse the chunks which have no parse result yet.
pub fn kick_zone_bake<T>(
    bake: &mut ZoneBakeState<T>,
    parse: &MmbParseCache,
    file_id: u32,
    slot: u8,
    world_pos: Vec3,
    spawns: Vec<ZoneMmbSpawn>,
    tasks: Vec<(usize, T)>,
)
    requires
        task_chunks(tasks@) == unparsed(*parse, file_id, first_uses(spawns@)),
    ensures
        final(bake).status == Some((file_id, slot, BakeStatus::InProgress)),
        final(bake).active matches Some(a) && {
            &&& a.file_id == file_id
            &&& a.slot == slot
            &&& a.world_pos == world_pos
            &&& a.spawns@ == spawns@
            &&& a.chunks@ == first_uses(spawns@)
            &&& forall|c: usize| #[trigger]
                a.done@.contains(c) <==> a.chunks@.contains(c) && parse.by_asset@.contains_key(
                    (file_id, c),
                )
            &&& a.tasks@ == tasks@
            &&& a.merged == 0
            &&& a.buckets@.len() == 0
            &&& a.pending@.len() == 0
            &&& a.wf()
        },
{
    let chunks = bake_chunks(&spawns);
    let mut done: HashSet<usize> = HashSet::new();
    let mut i: usize = 0;
    while i < chunks.len()
        invariant
            i <= chunks.len(),
            forall|c: usize| #[trigger]
                done@.contains(c) <==> chunks@.take(i as int).contains(c)
                    && parse.by_asset@.contains_key((file_id, c)),
        decreases chunks.len() - i,
    {
        let chunk = chunks[i];
        let ghost before = done@;
        if parse.by_asset.contains(file_id, chunk) {
            done.insert(chunk);
        }
        proof {
            let shorter = chunks@.take(i as int);
            let longer = chunks@.take(i as int + 1);
            assert(longer =~= shorter.push(chunk));
            assert forall|c: usize| #[trigger] done@.contains(c) <==> longer.contains(c)
                && parse.by_asset@.contains_key((file_id, c)) by {
                assert(done@.contains(c) <==> before.contains(c) || (c == chunk
                    && parse.by_asset@.contains_key((file_id, chunk))));
                if shorter.contains(c) {
                    let k = choose|k: int| 0 <= k < shorter.len() && shorter[k] == c;
                    assert(longer[k] == c);
                }
                if longer.contains(c) && c != chunk {
                    let k = choose|k: int| 0 <= k < longer.len() && longer[k] == c;
                    assert(shorter[k] == c);
                }
                assert(longer[i as int] == chunk);
            }
        }
        i = i + 1;
    }
    assert(chunks@.take(chunks@.len() as int) =~= chunks@);
    bake.status = Some((file_id, slot, BakeStatus::InProgress));
    bake.active = Some(
        ActiveBake {
            file_id,
            slot,
            world_pos,
            spawns,
            chunks,
            done,
            tasks,
            merged: 0,
            buckets: Vec::new(),
            pending: VecDeque::new(),
        },
    );
}

/// The content of a merged mesh.
#[verifier::ext_equal]
pub struct BucketData {
    pub zone_mesh_name: Seq<char>,
    pub variant_name: Seq<char>,
    pub blending: u16,
    pub positions: Seq<Vec3>,
    pub normals: Seq<Vec3>,
    pub uvs: Seq<Vec2>,
    pub colors: Seq<Vec4>,
    pub indices: Seq<u32>,
}

impl View for BakeBucket {
    type V = BucketData;

    open spec fn view(&self) -> BucketData {
        BucketData {
            zone_mesh_name: self.zone_mesh_name@,
            variant_name: self.variant_name@,
            blending: self.blending,
            positions: self.positions@,
            normals: self.normals@,
            uvs: self.uvs@,
            colors: self.colors@,
            indices: self.indices@,
        }
    }
}

/// Merged meshes with their contents.
pub open spec fn bucket_data(buckets: Seq<(BakeBucketKey, BakeBucket)>) -> Seq<
    (BakeBucketKey, BucketData),
> {
    buckets.map_values(|e: (BakeBucketKey, BakeBucket)| (e.0, e.1@))
}

/// The keys of merged meshes.
pub open spec fn bucket_keys<B>(buckets: Seq<(BakeBucketKey, B)>) -> Seq<BakeBucketKey> {
    buckets.map_values(|e: (BakeBucketKey, B)| e.0)
}

/// A merged mesh with nothing in it yet.
pub open spec fn fresh_bucket(zone_mesh_name: Seq<char>, mesh: MeshData) -> BucketData {
    BucketData {
        zone_mesh_name,
        variant_name: trimmed(mesh.variant_name),
        blending: mesh.blending,
        positions: Seq::empty(),
        normals: Seq::empty(),
        uvs: Seq::empty(),
        colors: Seq::empty(),
        indices: Seq::empty(),
    }
}

/// An index of a mesh that is appended behind other vertices. It has thirty-two
/// bits.
pub open spec fn shifted(base: nat, index: u32) -> u32 {
    ((base + index) % 0x1_0000_0000) as u32
}

/// A merged mesh with a submesh behind it, where the placement puts that. The
/// normals are those of the placement, unless the submesh has not one for each
/// vertex; then none are added.
pub open spec fn appended(
    bucket: BucketData,
    mesh: MeshData,
    positions: Seq<Vec3>,
    normals: Seq<Vec3>,
) -> BucketData {
    BucketData {
        positions: bucket.positions + positions,
        normals: if mesh.normals.len() == mesh.positions.len() {
            bucket.normals + normals
        } else {
            bucket.normals
        },
        uvs: bucket.uvs + mesh.uvs,
        colors: bucket.colors + mesh.colors,
        indices: bucket.indices + mesh.indices.map_values(
            |i: u32| shifted(bucket.positions.len(), i),
        ),
        ..bucket
    }
}

/// The merged meshes after a submesh has been added under a key: to the one
/// with the key, or to a new one behind all others.
pub open spec fn mesh_added(
    buckets: Seq<(BakeBucketKey, BucketData)>,
    key: BakeBucketKey,
    zone_mesh_name: Seq<char>,
    mesh: MeshData,
    placed: PlacedMesh,
) -> Seq<(BakeBucketKey, BucketData)>
    decreases buckets.len(),
{
    if buckets.len() == 0 {
        seq![
            (
                key,
                appended(
                    fresh_bucket(zone_mesh_name, mesh),
                    mesh,
                    placed.positions@,
                    placed.normals@,
                ),
            ),
        ]
    } else if buckets[0].0 == key {
        buckets.update(
            0,
            (key, appended(buckets[0].1, mesh, placed.positions@, placed.normals@)),
        )
    } else {
        seq![buckets[0]] + mesh_added(buckets.drop_first(), key, zone_mesh_name, mesh, placed)
    }
}

proof fn lemma_mesh_added_at(
    buckets: Seq<(BakeBucketKey, BucketData)>,
    key: BakeBucketKey,
    name: Seq<char>,
    mesh: MeshData,
    placed: PlacedMesh,
    i: int,
)
    requires
        0 <= i < buckets.len(),
        buckets[i].0 == key,
        forall|j: int| 0 <= j < i ==> (#[trigger] buckets[j]).0 != key,
    ensures
        mesh_added(buckets, key, name, mesh, placed) == buckets.update(
            i,
            (key, appended(buckets[i].1, mesh, placed.positions@, placed.normals@)),
        ),
    decreases i,
{
    if i > 0 {
        assert(buckets[0].0 != key);
        let rest = buckets.drop_first();
        assert forall|j: int| 0 <= j < i - 1 implies (#[trigger] rest[j]).0 != key by {
            assert(rest[j] == buckets[j + 1]);
        }
        lemma_mesh_added_at(rest, key, name, mesh, placed, i - 1);
        assert(mesh_added(buckets, key, name, mesh, placed) =~= buckets.update(
            i,
            (key, appended(buckets[i].1, mesh, placed.positions@, placed.normals@)),
        ));
    }
}

proof fn lemma_mesh_added_new(
    buckets: Seq<(BakeBucketKey, BucketData)>,
    key: BakeBucketKey,
    name: Seq<char>,
    mesh: MeshData,
    placed: PlacedMesh,
)
    requires
        forall|j: int| 0 <= j < buckets.len() ==> (#[trigger] buckets[j]).0 != key,
    ensures
        mesh_added(buckets, key, name, mesh, placed) == buckets.push(
            (
                key,
                appended(fresh_bucket(name, mesh), mesh, placed.positions@, placed.normals@),
            ),
        ),
    decreases buckets.len(),
{
    if buckets.len() > 0 {
        assert(buckets[0].0 != key);
        let rest = buckets.drop_first();
        assert forall|j: int| 0 <= j < rest.len() implies (#[trigger] rest[j]).0 != key by {
            assert(rest[j] == buckets[j + 1]);
        }
        lemma_mesh_added_new(rest, key, name, mesh, placed);
    }
    assert(mesh_added(buckets, key, name, mesh, placed) =~= buckets.push(
        (key, appended(fresh_bucket(name, mesh), mesh, placed.positions@, placed.normals@)),
    ));
}

/// The key under which a submesh of a placement is merged.
pub open spec fn bucket_key(spawn: ZoneMmbSpawn, sub_index: usize, mirrored: bool) -> BakeBucketKey {
    BakeBucketKey {
        chunk_idx: spawn.chunk_idx,
        sub_index,
        mirrored,
        sub_area_link: spawn.sub_area_link,
    }
}

/// The merged meshes after the first submeshes of a placement have been added.
/// A submesh without vertices or without indices is left out.
pub open spec fn model_added(
    buckets: Seq<(BakeBucketKey, BucketData)>,
    spawn: ZoneMmbSpawn,
    model: LoadedMmb,
    placed: PlacedModel,
    count: nat,
) -> Seq<(BakeBucketKey, BucketData)>
    decreases count,
{
    if count == 0 {
        buckets
    } else {
        let before = model_added(buckets, spawn, model, placed, (count - 1) as nat);
        let mesh = model.submeshes@[count - 1]@;
        if mesh.positions.len() == 0 || mesh.indices.len() == 0 {
            before
        } else {
            mesh_added(
                before,
                bucket_key(spawn, (count - 1) as usize, mirroring(Some(placed.determinant))),
                model.zone_mesh_name@,
                mesh,
                placed.meshes@[count - 1],
            )
        }
    }
}

/// The merged meshes after placements have been added, `count` of them from
/// `from` on. A placement whose model could not be loaded is left out.
pub open spec fn spawns_added(
    buckets: Seq<(BakeBucketKey, BucketData)>,
    parse: MmbParseCache,
    file_id: u32,
    spawns: Seq<ZoneMmbSpawn>,
    from: int,
    placed: Seq<PlacedModel>,
    count: nat,
) -> Seq<(BakeBucketKey, BucketData)>
    decreases count,
{
    if count == 0 {
        buckets
    } else {
        let before = spawns_added(
            buckets,
            parse,
            file_id,
            spawns,
            from,
            placed,
            (count - 1) as nat,
        );
        let spawn = spawns[from + count - 1];
        match parse.model(file_id, spawn.chunk_idx) {
            None => before,
            Some(model) => model_added(
                before,
                spawn,
                model,
                placed[count - 1],
                model.submeshes@.len(),
            ),
        }
    }
}

/// The placed model has what the model has: all submeshes, with as many
/// vertices and normals each.
pub open spec fn placed_as(model: LoadedMmb, placed: PlacedModel) -> bool {
    &&& placed.meshes@.len() == model.submeshes@.len()
    &&& forall|k: int|
        0 <= k < model.submeshes@.len() ==> {
            &&& (#[trigger] placed.meshes@[k]).positions@.len()
                == model.submeshes@[k].positions@.len()
            &&& placed.meshes@[k].normals@.len() == model.submeshes@[k].normals@.len()
        }
}

fn extend<C: Copy>(to: &mut Vec<C>, from: &Vec<C>)
    ensures
        final(to)@ == old(to)@ + from@,
{
    let mut i: usize = 0;
    while i < from.len()
        invariant
            i <= from.len(),
            to@ == old(to)@ + from@.take(i as int),
        decreases from.len() - i,
    {
        to.push(from[i]);
        assert(from@.take(i as int + 1) =~= from@.take(i as int).push(from@[i as int]));
        i = i + 1;
    }
    assert(from@.take(from@.len() as int) =~= from@);
}

fn append_mesh(bucket: &mut BakeBucket, mesh: &MmbSubMesh, placed: &PlacedMesh)
    ensures
        forall|v: int|
            old(bucket).positions@.len() <= v < old(bucket).positions@.len()
                + placed.positions@.len() ==> #[trigger] final(bucket).positions@[v]
                == placed.positions@[v - old(bucket).positions@.len()],
        mesh.normals@.len() == mesh.positions@.len() ==> forall|v: int|
            old(bucket).normals@.len() <= v < old(bucket).normals@.len() + placed.normals@.len()
                ==> #[trigger] final(bucket).normals@[v] == placed.normals@[v
                - old(bucket).normals@.len()],
        final(bucket)@ == appended(old(bucket)@, mesh@, placed.positions@, placed.normals@),
{
    let ghost base = bucket.positions@.len();
    let base_index: u64 = bucket.positions.len() as u64 % 0x1_0000_0000;
    extend(&mut bucket.positions, &placed.positions);
    if mesh.normals.len() == mesh.positions.len() {
        extend(&mut bucket.normals, &placed.normals);
    }
    extend(&mut bucket.uvs, &mesh.uvs);
    extend(&mut bucket.colors, &mesh.colors);
    let ghost before = *bucket;
    let ghost shift = |i: u32| shifted(base, i);
    let mut i: usize = 0;
    while i < mesh.indices.len()
        invariant
            i <= mesh.indices.len(),
            base_index == base % 0x1_0000_0000,
            shift == (|i: u32| shifted(base, i)),
            bucket.zone_mesh_name == before.zone_mesh_name,
            bucket.variant_name == before.variant_name,
            bucket.blending == before.blending,
            bucket.positions == before.positions,
            bucket.normals == before.normals,
            bucket.uvs == before.uvs,
            bucket.colors == before.colors,
            bucket.indices@ =~= before.indices@ + mesh.indices@.take(i as int).map_values(shift),
        decreases mesh.indices.len() - i,
    {
        let index = ((base_index + mesh.indices[i] as u64) % 0x1_0000_0000) as u32;
        assert(index == shifted(base, mesh.indices@[i as int]));
        bucket.indices.push(index);
        i = i + 1;
    }
    assert(mesh.indices@.take(i as int) =~= mesh.indices@);
    assert(bucket@ =~= appended(old(bucket)@, mesh@, placed.positions@, placed.normals@));
}

impl<T> ActiveBake<T> {
    /// No more placements are merged than there are, and no two meshes have the
    /// same key. Meshes are listed when all placements are merged, all of them and
    /// in their order.
    pub open spec fn wf(&self) -> bool {
        &&& self.merged <= self.spawns@.len()
        &&& bucket_keys(self.buckets@).no_duplicates()
        &&& self.pending@.len() > 0 ==> self.merged == self.spawns@.len() && self.pending@
            == bucket_keys(self.buckets@)
    }

    fn find_bucket(&self, key: BakeBucketKey) -> (r: Option<usize>)
        ensures
            match r {
                Some(i) => i < self.buckets@.len() && self.buckets@[i as int].0 == key && forall|
                    j: int,
                |
                    0 <= j < i ==> (#[trigger] self.buckets@[j]).0 != key,
                None => forall|j: int|
                    0 <= j < self.buckets@.len() ==> (#[trigger] self.buckets@[j]).0 != key,
            },
    {
        let mut i: usize = 0;
        while i < self.buckets.len()
            invariant
                i <= self.buckets.len(),
                forall|j: int| 0 <= j < i ==> (#[trigger] self.buckets@[j]).0 != key,
            decreases self.buckets.len() - i,
        {
            if self.buckets[i].0 == key {
                return Some(i);
            }
            i = i + 1;
        }
        None
    }

    /// Nothing but the meshes is different.
    spec fn same_but_buckets(&self, other: &ActiveBake<T>) -> bool {
        &&& self.file_id == other.file_id
        &&& self.slot == other.slot
        &&& self.world_pos == other.world_pos
        &&& self.spawns == other.spawns
        &&& self.chunks == other.chunks
        &&& self.done == other.done
        &&& self.tasks == other.tasks
        &&& self.merged == other.merged
        &&& self.pending == other.pending
    }

    fn add_mesh(
        &mut self,
        key: BakeBucketKey,
        zone_mesh_name: &String,
        mesh: &MmbSubMesh,
        placed: &PlacedMesh,
    )
        requires
            bucket_keys(old(self).buckets@).no_duplicates(),
        ensures
            final(self).same_but_buckets(old(self)),
            bucket_keys(final(self).buckets@).no_duplicates(),
            bucket_data(final(self).buckets@) == mesh_added(
                bucket_data(old(self).buckets@),
                key,
                zone_mesh_name@,
                mesh@,
                *placed,
            ),
    {
        let ghost before = bucket_data(self.buckets@);
        let ghost keys = bucket_keys(self.buckets@);
        match self.find_bucket(key) {
            Some(i) => {
                append_mesh(&mut self.buckets[i].1, mesh, placed);
                proof {
                    assert forall|j: int| 0 <= j < i implies (#[trigger] before[j]).0 != key by {
                        assert(before[j].0 == old(self).buckets@[j].0);
                    }
                    lemma_mesh_added_at(before, key, zone_mesh_name@, mesh@, *placed, i as int);
                    assert(bucket_data(self.buckets@) =~= before.update(
                        i as int,
                        (
                            key,
                            appended(
                                before[i as int].1,
                                mesh@,
                                placed.positions@,
                                placed.normals@,
                            ),
                        ),
                    ));
                    assert(bucket_keys(self.buckets@) =~= keys);
                }
            },
            None => {
                let mut bucket = BakeBucket {
                    zone_mesh_name: zone_mesh_name.clone(),
                    variant_name: trim(mesh.variant_name.as_str()).to_owned(),
                    blending: mesh.blending,
                    positions: Vec::new(),
                    normals: Vec::new(),
                    uvs: Vec::new(),
                    colors: Vec::new(),
                    indices: Vec::new(),
                };
                assert(bucket@ =~= fresh_bucket(zone_mesh_name@, mesh@));
                append_mesh(&mut bucket, mesh, placed);
                self.buckets.push((key, bucket));
                proof {
                    assert forall|j: int| 0 <= j < before.len() implies (#[trigger] before[j]).0
                        != key by {
                        assert(before[j].0 == old(self).buckets@[j].0);
                    }
                    lemma_mesh_added_new(before, key, zone_mesh_name@, mesh@, *placed);
                    assert(bucket_data(self.buckets@) =~= before.push((key, bucket@)));
                    assert(bucket_keys(self.buckets@) =~= keys.push(key));
                    assert forall|j: int| 0 <= j < keys.len() implies keys[j] != key by {
                        assert(keys[j] == old(self).buckets@[j].0);
                    }
                }
            },
        }
    }

    fn add_model(&mut self, spawn: ZoneMmbSpawn, model: &LoadedMmb, placed: &PlacedModel)
        requires
            bucket_keys(old(self).buckets@).no_duplicates(),
            placed_as(*model, *placed),
        ensures
            final(self).same_but_buckets(old(self)),
            bucket_keys(final(self).buckets@).no_duplicates(),
            bucket_data(final(self).buckets@) == model_added(
                bucket_data(old(self).buckets@),
                spawn,
                *model,
                *placed,
                model.submeshes@.len(),
            ),
    {
        let mirrored = is_mirrored(Some(placed.determinant));
        let mut k: usize = 0;
        while k < model.submeshes.len()
            invariant
                k <= model.submeshes.len(),
                mirrored == mirroring(Some(placed.determinant)),
                placed_as(*model, *placed),
                self.same_but_buckets(old(self)),
                bucket_keys(self.buckets@).no_duplicates(),
                bucket_data(self.buckets@) == model_added(
                    bucket_data(old(self).buckets@),
                    spawn,
                    *model,
                    *placed,
                    k as nat,
                ),
            decreases model.submeshes.len() - k,
        {
            let mesh = &model.submeshes[k];
            if mesh.positions.len() > 0 && mesh.indices.len() > 0 {
                let key = BakeBucketKey {
                    chunk_idx: spawn.chunk_idx,
                    sub_index: k,
                    mirrored,
                    sub_area_link: spawn.sub_area_link,
                };
                self.add_mesh(key, &model.zone_mesh_name, mesh, &placed.meshes[k]);
            }
            k = k + 1;
        }
    }

    /// The placements that one frame merges.
    pub open spec fn batch_end(&self) -> int {
        if self.merged + BAKE_MERGE_PLACEMENTS_PER_FRAME <= self.spawns@.len() {
            self.merged + BAKE_MERGE_PLACEMENTS_PER_FRAME
        } else {
            self.spawns@.len() as int
        }
    }

    /// The end of the placements that one frame merges.
    pub fn merge_end(&self) -> (end: usize)
        requires
            self.wf(),
        ensures
            end == self.batch_end(),
            self.can_merge() ==> self.merged < end,
            self.merged <= end <= self.spawns@.len(),
            end - self.merged <= 4096,
            end - self.merged == 4096 || end == self.spawns@.len(),
    {
        if self.spawns.len() - self.merged >= BAKE_MERGE_PLACEMENTS_PER_FRAME {
            self.merged + BAKE_MERGE_PLACEMENTS_PER_FRAME
        } else {
            self.spawns.len()
        }
    }

    /// Everything is parsed, and something is left to merge.
    pub open spec fn can_merge(&self) -> bool {
        &&& self.tasks@.len() == 0
        &&& self.merged < self.spawns@.len()
        &&& forall|i: int|
            0 <= i < self.chunks@.len() ==> self.done@.contains(#[trigger] self.chunks@[i])
    }

    /// Whether placements can be merged.
    pub fn ready_to_merge(&self) -> (b: bool)
        ensures
            b == self.can_merge(),
            b <==> self.tasks@.len() == 0 && self.merged < self.spawns@.len() && forall|i: int|
                0 <= i < self.chunks@.len() ==> self.done@.contains(#[trigger] self.chunks@[i]),
    {
        if self.tasks.len() > 0 || self.merged >= self.spawns.len() {
            return false;
        }
        let mut i: usize = 0;
        while i < self.chunks.len()
            invariant
                i <= self.chunks.len(),
                forall|j: int| 0 <= j < i ==> self.done@.contains(#[trigger] self.chunks@[j]),
            decreases self.chunks.len() - i,
        {
            if !self.done.contains(&self.chunks[i]) {
                assert(!self.done@.contains(self.chunks@[i as int]));
                return false;
            }
            i = i + 1;
        }
        true
    }

    /// Takes in what a task came to, and returns the task.
    pub fn finish_task(
        &mut self,
        parse: &mut MmbParseCache,
        index: usize,
        result: Option<LoadedMmb>,
    ) -> (task: T)
        requires
            index < old(self).tasks@.len(),
        ensures
            task == old(self).tasks@[index as int].1,
            final(self).tasks@ == old(self).tasks@.update(
                index as int,
                old(self).tasks@.last(),
            ).drop_last(),
            final(self).done@ == old(self).done@.insert(old(self).tasks@[index as int].0),
            final(parse).by_asset@ == old(parse).by_asset@.insert(
                (old(self).file_id, old(self).tasks@[index as int].0),
                result,
            ),
            final(self).file_id == old(self).file_id,
            final(self).slot == old(self).slot,
            final(self).world_pos == old(self).world_pos,
            final(self).spawns == old(self).spawns,
            final(self).chunks == old(self).chunks,
            final(self).merged == old(self).merged,
            final(self).buckets == old(self).buckets,
            final(self).pending == old(self).pending,
    {
        let (chunk_idx, task) = self.tasks.swap_remove(index);
        parse.by_asset.insert(self.file_id, chunk_idx, result);
        self.done.insert(chunk_idx);
        task
    }

    /// Makes a list of the meshes to spawn once everything is merged.
    fn queue_buckets(&mut self)
        ensures
            final(self).pending@ == old(self).listed(),
            final(self).buckets == old(self).buckets,
            final(self).same_but_spawning(old(self)),
    {
        if self.merged < self.spawns.len() || self.pending.len() > 0 {
            return;
        }
        let mut i: usize = 0;
        while i < self.buckets.len()
            invariant
                i <= self.buckets.len(),
                self.pending@ =~= bucket_keys(self.buckets@).take(i as int),
                self.same_but_spawning(old(self)),
                self.buckets == old(self).buckets,
            decreases self.buckets.len() - i,
        {
            self.pending.push_back(self.buckets[i].0);
            i = i + 1;
        }
        assert(self.pending@ =~= bucket_keys(self.buckets@));
    }

    /// Takes the next mesh to spawn. A key without a mesh is passed over.
    fn next_bucket(&mut self) -> (r: Option<(BakeBucketKey, BakeBucket)>)
        requires
            bucket_keys(old(self).buckets@).no_duplicates(),
        ensures
            bucket_keys(final(self).buckets@).no_duplicates(),
            (r, final(self).pending@, final(self).buckets@) == bucket_taken(
                old(self).pending@,
                old(self).buckets@,
            ),
            final(self).same_but_spawning(old(self)),
    {
        while self.pending.len() > 0
            invariant
                bucket_keys(self.buckets@).no_duplicates(),
                bucket_taken(self.pending@, self.buckets@) == bucket_taken(
                    old(self).pending@,
                    old(self).buckets@,
                ),
                self.same_but_spawning(old(self)),
                self.buckets == old(self).buckets,
            decreases self.pending@.len(),
        {
            let ghost pending = self.pending@;
            if let Some(key) = self.pending.pop_front() {
                assert(self.pending@ =~= pending.drop_first());
                match self.find_bucket(key) {
                    Some(i) => {
                        proof {
                            lemma_bucket_place(self.buckets@, key, i as int);
                            lemma_remove_keeps_keys_apart(self.buckets@, i as int);
                        }
                        let r = self.buckets.remove(i);
                        return Some(r);
                    },
                    None => {
                        proof {
                            lemma_no_bucket_place(self.buckets@, key);
                        }
                    },
                }
            }
        }
        None
    }

    /// Nothing but the meshes and the list of those to spawn is different.
    pub open spec fn same_but_spawning(&self, other: &ActiveBake<T>) -> bool {
        &&& self.file_id == other.file_id
        &&& self.slot == other.slot
        &&& self.world_pos == other.world_pos
        &&& self.spawns == other.spawns
        &&& self.chunks == other.chunks
        &&& self.done == other.done
        &&& self.tasks == other.tasks
        &&& self.merged == other.merged
    }

    /// The meshes to spawn: as listed, or all of them in the order in which they
    /// were begun once everything is merged and none is listed.
    pub open spec fn listed(&self) -> Seq<BakeBucketKey> {
        if self.merged >= self.spawns@.len() && self.pending@.len() == 0 {
            bucket_keys(self.buckets@)
        } else {
            self.pending@
        }
    }

    /// Takes the meshes that are spawned in one frame.
    pub fn frame_buckets(&mut self) -> (out: Vec<(BakeBucketKey, BakeBucket)>)
        requires
            old(self).wf(),
        ensures
            final(self).wf(),
            out@ == old(self).buckets@.take(old(self).frame_size()),
            final(self).buckets@ == old(self).buckets@.skip(old(self).frame_size()),
            final(self).pending@ == if old(self).merged == old(self).spawns@.len() {
                bucket_keys(final(self).buckets@)
            } else {
                Seq::empty()
            },
            final(self).same_but_spawning(old(self)),
            old(self).merged < old(self).spawns@.len() ==> out@.len() == 0,
            old(self).merged == old(self).spawns@.len() ==> out@.len() == 24 || (out@.len() < 24
                && final(self).buckets@.len() == 0),
            out@ + final(self).buckets@ == old(self).buckets@,
    {
        self.queue_buckets();
        let ghost listed = self.pending@;
        let ghost all = self.buckets@;
        let mut out: Vec<(BakeBucketKey, BakeBucket)> = Vec::new();
        let ghost whole = buckets_drained(listed, all, BAKE_SPAWN_BUCKETS_PER_FRAME as nat);
        assert(whole.0 =~= out@ + whole.0);
        while out.len() < BAKE_SPAWN_BUCKETS_PER_FRAME
            invariant_except_break
                bucket_keys(self.buckets@).no_duplicates(),
                self.same_but_spawning(old(self)),
                out@.len() <= BAKE_SPAWN_BUCKETS_PER_FRAME,
                ({
                    let rest = buckets_drained(
                        self.pending@,
                        self.buckets@,
                        (BAKE_SPAWN_BUCKETS_PER_FRAME - out@.len()) as nat,
                    );
                    whole == (out@ + rest.0, rest.1, rest.2)
                }),
            ensures
                bucket_keys(self.buckets@).no_duplicates(),
                self.same_but_spawning(old(self)),
                whole == (out@, self.pending@, self.buckets@),
            decreases BAKE_SPAWN_BUCKETS_PER_FRAME - out.len(),
        {
            let ghost pending = self.pending@;
            let ghost buckets = self.buckets@;
            let ghost before = out@;
            let ghost rest = buckets_drained(
                pending,
                buckets,
                (BAKE_SPAWN_BUCKETS_PER_FRAME - out@.len()) as nat,
            );
            match self.next_bucket() {
                Some(b) => {
                    out.push(b);
                    proof {
                        let less = buckets_drained(
                            self.pending@,
                            self.buckets@,
                            (BAKE_SPAWN_BUCKETS_PER_FRAME - out@.len()) as nat,
                        );
                        assert(rest.0 == seq![b] + less.0);
                        assert(before + rest.0 =~= out@ + less.0);
                    }
                },
                None => {
                    assert(rest.0.len() == 0);
                    assert(before + rest.0 =~= before);
                    break;
                },
            }
        }
        proof {
            old(self).lemma_frame();
            assert(out@ + self.buckets@ =~= old(self).buckets@);
        }
        out
    }

    /// What a frame takes of the meshes: the next ones in their order, once all
    /// placements are merged, and none before that.
    proof fn lemma_frame(&self)
        requires
            self.wf(),
        ensures
            ({
                let (out, listed, left) = buckets_drained(
                    self.listed(),
                    self.buckets@,
                    BAKE_SPAWN_BUCKETS_PER_FRAME as nat,
                );
                let n = self.frame_size();
                &&& out == self.buckets@.take(n)
                &&& left == self.buckets@.skip(n)
                &&& listed == if self.merged == self.spawns@.len() {
                    bucket_keys(left)
                } else {
                    Seq::empty()
                }
            }),
    {
        if self.merged == self.spawns@.len() {
            frames_spawn_in_order(self.buckets@, BAKE_SPAWN_BUCKETS_PER_FRAME as nat);
        } else {
            assert(self.listed().len() == 0);
            assert(self.listed() =~= Seq::<BakeBucketKey>::empty());
            assert(self.buckets@.take(0) =~= Seq::<(BakeBucketKey, BakeBucket)>::empty());
            assert(self.buckets@.skip(0) =~= self.buckets@);
        }
    }

    /// How many meshes a frame spawns.
    pub open spec fn frame_size(&self) -> int {
        if self.merged < self.spawns@.len() {
            0
        } else if self.buckets@.len() <= BAKE_SPAWN_BUCKETS_PER_FRAME {
            self.buckets@.len() as int
        } else {
            BAKE_SPAWN_BUCKETS_PER_FRAME as int
        }
    }
}

/// The place of the mesh with a key.
pub open spec fn bucket_place<B>(buckets: Seq<(BakeBucketKey, B)>, key: BakeBucketKey) -> Option<int>
    decreases buckets.len(),
{
    if buckets.len() == 0 {
        None
    } else if buckets[0].0 == key {
        Some(0)
    } else {
        match bucket_place(buckets.drop_first(), key) {
            Some(i) => Some(i + 1),
            None => None,
        }
    }
}

proof fn lemma_bucket_place<B>(buckets: Seq<(BakeBucketKey, B)>, key: BakeBucketKey, i: int)
    requires
        0 <= i < buckets.len(),
        buckets[i].0 == key,
        forall|j: int| 0 <= j < i ==> (#[trigger] buckets[j]).0 != key,
    ensures
        bucket_place(buckets, key) == Some(i),
    decreases i,
{
    if i > 0 {
        assert(buckets[0].0 != key);
        let rest = buckets.drop_first();
        assert forall|j: int| 0 <= j < i - 1 implies (#[trigger] rest[j]).0 != key by {
            assert(rest[j] == buckets[j + 1]);
        }
        lemma_bucket_place(rest, key, i - 1);
    }
}

proof fn lemma_no_bucket_place<B>(buckets: Seq<(BakeBucketKey, B)>, key: BakeBucketKey)
    requires
        forall|j: int| 0 <= j < buckets.len() ==> (#[trigger] buckets[j]).0 != key,
    ensures
        bucket_place(buckets, key) is None,
    decreases buckets.len(),
{
    if buckets.len() > 0 {
        assert(buckets[0].0 != key);
        let rest = buckets.drop_first();
        assert forall|j: int| 0 <= j < rest.len() implies (#[trigger] rest[j]).0 != key by {
            assert(rest[j] == buckets[j + 1]);
        }
        lemma_no_bucket_place(rest, key);
    }
}

proof fn lemma_remove_keeps_keys_apart<B>(buckets: Seq<(BakeBucketKey, B)>, i: int)
    requires
        0 <= i < buckets.len(),
        bucket_keys(buckets).no_duplicates(),
    ensures
        bucket_keys(buckets.remove(i)).no_duplicates(),
{
    let keys = bucket_keys(buckets);
    let fewer = bucket_keys(buckets.remove(i));
    assert forall|a: int, b: int| 0 <= a < fewer.len() && 0 <= b < fewer.len() && a != b implies
        fewer[a] != fewer[b] by {
        let x = if a < i {
            a
        } else {
            a + 1
        };
        let y = if b < i {
            b
        } else {
            b + 1
        };
        assert(fewer[a] == keys[x]);
        assert(fewer[b] == keys[y]);
    }
}

/// The first listed mesh that there is, and what is left when it has been
/// taken.
pub open spec fn bucket_taken<B>(
    pending: Seq<BakeBucketKey>,
    buckets: Seq<(BakeBucketKey, B)>,
) -> (Option<(BakeBucketKey, B)>, Seq<BakeBucketKey>, Seq<(BakeBucketKey, B)>)
    decreases pending.len(),
{
    if pending.len() == 0 {
        (None, pending, buckets)
    } else {
        match bucket_place(buckets, pending[0]) {
            Some(i) => (Some(buckets[i]), pending.drop_first(), buckets.remove(i)),
            None => bucket_taken(pending.drop_first(), buckets),
        }
    }
}

/// When the meshes have been listed they come out one by one, in the order in
/// which they were begun, until none is left.
pub proof fn buckets_come_out_in_order<B>(buckets: Seq<(BakeBucketKey, B)>)
    ensures
        bucket_taken(bucket_keys(buckets), buckets) == (if buckets.len() == 0 {
            (None, bucket_keys(buckets), buckets)
        } else {
            (Some(buckets[0]), bucket_keys(buckets.drop_first()), buckets.drop_first())
        }),
{
    if buckets.len() > 0 {
        assert(bucket_keys(buckets).drop_first() =~= bucket_keys(buckets.drop_first()));
        assert(buckets.remove(0) =~= buckets.drop_first());
        assert(bucket_keys(buckets)[0] == buckets[0].0);
    }
}

/// The listed meshes that there are, `most` of them at most, and what is left
/// when they have been taken.
pub open spec fn buckets_drained<B>(
    pending: Seq<BakeBucketKey>,
    buckets: Seq<(BakeBucketKey, B)>,
    most: nat,
) -> (Seq<(BakeBucketKey, B)>, Seq<BakeBucketKey>, Seq<(BakeBucketKey, B)>)
    decreases most,
{
    if most == 0 {
        (Seq::empty(), pending, buckets)
    } else {
        let (first, listed, left) = bucket_taken(pending, buckets);
        match first {
            None => (Seq::empty(), listed, left),
            Some(b) => {
                let (more, listed, left) = buckets_drained(listed, left, (most - 1) as nat);
                (seq![b] + more, listed, left)
            },
        }
    }
}

/// A frame spawns the next meshes in the order in which they were begun, each
/// once, and leaves the others for the frames to come.
pub proof fn frames_spawn_in_order<B>(buckets: Seq<(BakeBucketKey, B)>, most: nat)
    ensures
        ({
            let n = if buckets.len() <= most {
                buckets.len() as int
            } else {
                most as int
            };
            buckets_drained(bucket_keys(buckets), buckets, most) == (
                buckets.take(n),
                bucket_keys(buckets.skip(n)),
                buckets.skip(n),
            )
        }),
    decreases most,
{
    let (taken, listed, left) = buckets_drained(bucket_keys(buckets), buckets, most);
    if most == 0 || buckets.len() == 0 {
        buckets_come_out_in_order(buckets);
        assert(buckets.take(0) =~= taken);
        assert(buckets.skip(0) =~= buckets);
    } else {
        let rest = buckets.drop_first();
        buckets_come_out_in_order(buckets);
        frames_spawn_in_order(rest, (most - 1) as nat);
        let n = if buckets.len() <= most {
            buckets.len() as int
        } else {
            most as int
        };
        assert(taken =~= buckets.take(n));
        assert(rest.skip(n - 1) =~= buckets.skip(n));
    }
}

/// A merged mesh as it can be drawn.
pub open spec fn well_formed_bucket(b: BucketData) -> bool {
    &&& b.normals.len() == b.positions.len()
    &&& b.uvs.len() == b.positions.len()
    &&& b.colors.len() == b.positions.len()
    &&& b.indices.len() % 3 == 0
    &&& forall|i: int| 0 <= i < b.indices.len() ==> #[trigger] b.indices[i] < b.positions.len()
}

/// A merged mesh that can be drawn still can when a well formed submesh has been
/// added. A fresh one can be drawn.
pub proof fn merging_keeps_buckets_well_formed(
    bucket: BucketData,
    zone_mesh_name: Seq<char>,
    mesh: MeshData,
    positions: Seq<Vec3>,
    normals: Seq<Vec3>,
)
    requires
        well_formed_bucket(bucket),
        well_formed_mesh(mesh),
        positions.len() == mesh.positions.len(),
        normals.len() == mesh.normals.len(),
    ensures
        well_formed_bucket(appended(bucket, mesh, positions, normals)),
        well_formed_bucket(fresh_bucket(zone_mesh_name, mesh)),
{
    lemma_appended_in_range(bucket, mesh, positions, normals);
}

/// The content of the mesh with a key.
pub open spec fn bucket_content(
    buckets: Seq<(BakeBucketKey, BucketData)>,
    key: BakeBucketKey,
) -> Option<BucketData> {
    match bucket_place(buckets, key) {
        Some(i) => Some(buckets[i].1),
        None => None,
    }
}

proof fn lemma_place_in_range<B>(buckets: Seq<(BakeBucketKey, B)>, key: BakeBucketKey)
    ensures
        bucket_place(buckets, key) matches Some(i) ==> 0 <= i < buckets.len() && buckets[i].0 == key,
    decreases buckets.len(),
{
    if buckets.len() > 0 && buckets[0].0 != key {
        lemma_place_in_range(buckets.drop_first(), key);
    }
}

/// A submesh goes into the mesh with its key, behind what is there, and leaves
/// every other mesh as it was. A new mesh comes behind all others.
pub proof fn a_mesh_goes_into_its_own_bucket(
    buckets: Seq<(BakeBucketKey, BucketData)>,
    key: BakeBucketKey,
    zone_mesh_name: Seq<char>,
    mesh: MeshData,
    placed: PlacedMesh,
    other: BakeBucketKey,
)
    ensures
        ({
            let after = mesh_added(buckets, key, zone_mesh_name, mesh, placed);
            let before = match bucket_content(buckets, key) {
                Some(b) => b,
                None => fresh_bucket(zone_mesh_name, mesh),
            };
            &&& bucket_content(after, key) == Some(
                appended(before, mesh, placed.positions@, placed.normals@),
            )
            &&& other != key ==> bucket_content(after, other) == bucket_content(buckets, other)
            &&& bucket_keys(after) == if bucket_content(buckets, key) is Some {
                bucket_keys(buckets)
            } else {
                bucket_keys(buckets).push(key)
            }
        }),
    decreases buckets.len(),
{
    let after = mesh_added(buckets, key, zone_mesh_name, mesh, placed);
    if buckets.len() == 0 {
        assert(bucket_place(after.drop_first(), other) is None);
        assert(bucket_keys(after) =~= bucket_keys(buckets).push(key));
    } else if buckets[0].0 == key {
        assert(after.drop_first() =~= buckets.drop_first());
        lemma_place_in_range(buckets.drop_first(), other);
        assert(bucket_keys(after) =~= bucket_keys(buckets));
    } else {
        let rest = buckets.drop_first();
        a_mesh_goes_into_its_own_bucket(rest, key, zone_mesh_name, mesh, placed, other);
        let more = mesh_added(rest, key, zone_mesh_name, mesh, placed);
        assert(after.drop_first() =~= more);
        assert(after[0] == buckets[0]);
        lemma_place_in_range(rest, other);
        lemma_place_in_range(rest, key);
        lemma_place_in_range(more, other);
        lemma_place_in_range(more, key);
        assert(bucket_keys(buckets) =~= seq![buckets[0].0] + bucket_keys(rest));
        assert(bucket_keys(after) =~= seq![buckets[0].0] + bucket_keys(more));
        assert(bucket_keys(after) =~= if bucket_content(buckets, key) is Some {
            bucket_keys(buckets)
        } else {
            bucket_keys(buckets).push(key)
        });
    }
}

/// Merging in batches gives what merging all at once gives.
pub proof fn batches_merge_like_one(
    buckets: Seq<(BakeBucketKey, BucketData)>,
    parse: MmbParseCache,
    file_id: u32,
    spawns: Seq<ZoneMmbSpawn>,
    from: int,
    placed: Seq<PlacedModel>,
    first: nat,
    second: nat,
)
    requires
        first + second <= placed.len(),
    ensures
        ({
            let half = spawns_added(buckets, parse, file_id, spawns, from, placed, first);
            spawns_added(
                half,
                parse,
                file_id,
                spawns,
                from + first,
                placed.skip(first as int),
                second,
            ) == spawns_added(buckets, parse, file_id, spawns, from, placed, first + second)
        }),
    decreases second,
{
    if second > 0 {
        batches_merge_like_one(
            buckets,
            parse,
            file_id,
            spawns,
            from,
            placed,
            first,
            (second - 1) as nat,
        );
        assert(placed.skip(first as int)[second - 1] == placed[first + second - 1]);
        assert(((first + second) - 1) as nat == first + (second - 1) as nat);
    }
}

/// What was merged stays: the first holds what the second begins with, and the
/// second is drawn as the first.
pub open spec fn extended(before: BucketData, after: BucketData) -> bool {
    &&& after.zone_mesh_name == before.zone_mesh_name
    &&& after.variant_name == before.variant_name
    &&& after.blending == before.blending
    &&& before.positions.is_prefix_of(after.positions)
    &&& before.normals.is_prefix_of(after.normals)
    &&& before.uvs.is_prefix_of(after.uvs)
    &&& before.colors.is_prefix_of(after.colors)
    &&& before.indices.is_prefix_of(after.indices)
}

/// Every mesh of the first is there in the second, at the same place and under
/// the same key, and what it held stays.
pub open spec fn all_extended(
    before: Seq<(BakeBucketKey, BucketData)>,
    after: Seq<(BakeBucketKey, BucketData)>,
) -> bool {
    &&& before.len() <= after.len()
    &&& forall|i: int|
        #![trigger before[i]]
        #![trigger after[i]]
        0 <= i < before.len() ==> before[i].0 == after[i].0 && extended(before[i].1, after[i].1)
}

proof fn lemma_prefix_transitive<A>(a: Seq<A>, b: Seq<A>, c: Seq<A>)
    requires
        a.is_prefix_of(b),
        b.is_prefix_of(c),
    ensures
        a.is_prefix_of(c),
{
    assert forall|i: int| 0 <= i < a.len() implies a[i] == #[trigger] c[i] by {
        assert(a[i] == b.subrange(0, a.len() as int)[i]);
        assert(b[i] == c.subrange(0, b.len() as int)[i]);
    }
    assert(a =~= c.subrange(0, a.len() as int));
}

proof fn lemma_all_extended_transitive(
    a: Seq<(BakeBucketKey, BucketData)>,
    b: Seq<(BakeBucketKey, BucketData)>,
    c: Seq<(BakeBucketKey, BucketData)>,
)
    requires
        all_extended(a, b),
        all_extended(b, c),
    ensures
        all_extended(a, c),
{
    assert forall|i: int|
        #![trigger a[i]]
        #![trigger c[i]]
        0 <= i < a.len() implies a[i].0 == c[i].0 && extended(a[i].1, c[i].1) by {
        assert(extended(a[i].1, b[i].1));
        assert(extended(b[i].1, c[i].1));
        lemma_prefix_transitive(a[i].1.positions, b[i].1.positions, c[i].1.positions);
        lemma_prefix_transitive(a[i].1.normals, b[i].1.normals, c[i].1.normals);
        lemma_prefix_transitive(a[i].1.uvs, b[i].1.uvs, c[i].1.uvs);
        lemma_prefix_transitive(a[i].1.colors, b[i].1.colors, c[i].1.colors);
        lemma_prefix_transitive(a[i].1.indices, b[i].1.indices, c[i].1.indices);
    }
}

proof fn lemma_extended_by_itself(buckets: Seq<(BakeBucketKey, BucketData)>)
    ensures
        all_extended(buckets, buckets),
{
    assert forall|i: int| 0 <= i < buckets.len() implies extended(
        (#[trigger] buckets[i]).1,
        buckets[i].1,
    ) by {
        let b = buckets[i].1;
        assert(b.positions =~= b.positions.subrange(0, b.positions.len() as int));
        assert(b.normals =~= b.normals.subrange(0, b.normals.len() as int));
        assert(b.uvs =~= b.uvs.subrange(0, b.uvs.len() as int));
        assert(b.colors =~= b.colors.subrange(0, b.colors.len() as int));
        assert(b.indices =~= b.indices.subrange(0, b.indices.len() as int));
    }
}

proof fn lemma_appended_extends(
    bucket: BucketData,
    mesh: MeshData,
    positions: Seq<Vec3>,
    normals: Seq<Vec3>,
)
    ensures
        extended(bucket, appended(bucket, mesh, positions, normals)),
{
    let after = appended(bucket, mesh, positions, normals);
    assert(bucket.positions =~= after.positions.subrange(0, bucket.positions.len() as int));
    assert(bucket.normals =~= after.normals.subrange(0, bucket.normals.len() as int));
    assert(bucket.uvs =~= after.uvs.subrange(0, bucket.uvs.len() as int));
    assert(bucket.colors =~= after.colors.subrange(0, bucket.colors.len() as int));
    assert(bucket.indices =~= after.indices.subrange(0, bucket.indices.len() as int));
}

proof fn lemma_mesh_added_extends(
    buckets: Seq<(BakeBucketKey, BucketData)>,
    key: BakeBucketKey,
    name: Seq<char>,
    mesh: MeshData,
    placed: PlacedMesh,
)
    ensures
        all_extended(buckets, mesh_added(buckets, key, name, mesh, placed)),
    decreases buckets.len(),
{
    let after = mesh_added(buckets, key, name, mesh, placed);
    if buckets.len() > 0 {
        lemma_extended_by_itself(buckets);
        if buckets[0].0 == key {
            lemma_appended_extends(buckets[0].1, mesh, placed.positions@, placed.normals@);
            assert forall|i: int|
                #![trigger buckets[i]]
                #![trigger after[i]]
                0 <= i < buckets.len() implies buckets[i].0 == after[i].0 && extended(
                buckets[i].1,
                after[i].1,
            ) by {
                if i > 0 {
                    assert(after[i] == buckets[i]);
                }
            }
        } else {
            let rest = buckets.drop_first();
            let more = mesh_added(rest, key, name, mesh, placed);
            lemma_mesh_added_extends(rest, key, name, mesh, placed);
            assert forall|i: int|
                #![trigger buckets[i]]
                #![trigger after[i]]
                0 <= i < buckets.len() implies buckets[i].0 == after[i].0 && extended(
                buckets[i].1,
                after[i].1,
            ) by {
                if i > 0 {
                    assert(rest[i - 1] == buckets[i]);
                    assert(more[i - 1] == after[i]);
                } else {
                    assert(after[0] == buckets[0]);
                }
            }
        }
    }
}

proof fn lemma_model_added_extends(
    buckets: Seq<(BakeBucketKey, BucketData)>,
    spawn: ZoneMmbSpawn,
    model: LoadedMmb,
    placed: PlacedModel,
    count: nat,
)
    ensures
        all_extended(buckets, model_added(buckets, spawn, model, placed, count)),
    decreases count,
{
    if count == 0 {
        lemma_extended_by_itself(buckets);
    } else {
        let before = model_added(buckets, spawn, model, placed, (count - 1) as nat);
        let after = model_added(buckets, spawn, model, placed, count);
        let mesh = model.submeshes@[count - 1]@;
        lemma_model_added_extends(buckets, spawn, model, placed, (count - 1) as nat);
        if mesh.positions.len() > 0 && mesh.indices.len() > 0 {
            lemma_mesh_added_extends(
                before,
                bucket_key(spawn, (count - 1) as usize, mirroring(Some(placed.determinant))),
                model.zone_mesh_name@,
                mesh,
                placed.meshes@[count - 1],
            );
            lemma_all_extended_transitive(buckets, before, after);
        }
    }
}

/// Merging keeps what was merged: every mesh stays at its place and under its
/// key, and its vertices and indices stay at the front of it.
pub proof fn merging_keeps_what_was_merged(
    buckets: Seq<(BakeBucketKey, BucketData)>,
    parse: MmbParseCache,
    file_id: u32,
    spawns: Seq<ZoneMmbSpawn>,
    from: int,
    placed: Seq<PlacedModel>,
    count: nat,
)
    ensures
        all_extended(
            buckets,
            spawns_added(buckets, parse, file_id, spawns, from, placed, count),
        ),
    decreases count,
{
    if count == 0 {
        lemma_extended_by_itself(buckets);
    } else {
        let shorter = (count - 1) as nat;
        let before = spawns_added(buckets, parse, file_id, spawns, from, placed, shorter);
        let after = spawns_added(buckets, parse, file_id, spawns, from, placed, count);
        let spawn = spawns[from + count - 1];
        merging_keeps_what_was_merged(buckets, parse, file_id, spawns, from, placed, shorter);
        if let Some(m) = parse.model(file_id, spawn.chunk_idx) {
            lemma_model_added_extends(before, spawn, m, placed[count - 1], m.submeshes@.len());
            lemma_all_extended_transitive(buckets, before, after);
        }
    }
}

/// Every index of the submesh is that of a vertex.
pub open spec fn mesh_in_range(m: MeshData) -> bool {
    forall|i: int| 0 <= i < m.indices.len() ==> #[trigger] m.indices[i] < m.positions.len()
}

/// Every index of every submesh of the model is that of a vertex.
pub open spec fn model_in_range(model: LoadedMmb) -> bool {
    forall|k: int|
        0 <= k < model.submeshes@.len() ==> mesh_in_range((#[trigger] model.submeshes@[k])@)
}

/// Every index of the merged mesh is that of a vertex.
pub open spec fn bucket_in_range(b: BucketData) -> bool {
    forall|i: int| 0 <= i < b.indices.len() ==> #[trigger] b.indices[i] < b.positions.len()
}

/// Every index of every merged mesh is that of a vertex.
pub open spec fn all_in_range(buckets: Seq<(BakeBucketKey, BucketData)>) -> bool {
    forall|i: int| 0 <= i < buckets.len() ==> bucket_in_range((#[trigger] buckets[i]).1)
}

proof fn lemma_appended_in_range(
    bucket: BucketData,
    mesh: MeshData,
    positions: Seq<Vec3>,
    normals: Seq<Vec3>,
)
    requires
        bucket_in_range(bucket),
        mesh_in_range(mesh),
        positions.len() == mesh.positions.len(),
    ensures
        bucket_in_range(appended(bucket, mesh, positions, normals)),
{
    let b = appended(bucket, mesh, positions, normals);
    assert forall|i: int| 0 <= i < b.indices.len() implies #[trigger] b.indices[i]
        < b.positions.len() by {
        if i >= bucket.indices.len() {
            let k = mesh.indices[i - bucket.indices.len()];
            assert(k < mesh.positions.len());
            assert(b.indices[i] == shifted(bucket.positions.len(), k));
            assert(shifted(bucket.positions.len(), k) <= bucket.positions.len() + k);
        } else {
            assert(b.indices[i] == bucket.indices[i]);
        }
    }
}

/// A property of merged meshes holds of fresh ones, and adding a submesh with the
/// other property keeps it.
spec fn is_kept(holds: spec_fn(BucketData) -> bool, fits: spec_fn(MeshData) -> bool) -> bool {
    &&& forall|name: Seq<char>, mesh: MeshData| holds(#[trigger] fresh_bucket(name, mesh))
    &&& forall|b: BucketData, mesh: MeshData, positions: Seq<Vec3>, normals: Seq<Vec3>|
        holds(b) && fits(mesh) && positions.len() == mesh.positions.len() && normals.len()
            == mesh.normals.len() ==> holds(#[trigger] appended(b, mesh, positions, normals))
}

spec fn all_hold(
    holds: spec_fn(BucketData) -> bool,
    buckets: Seq<(BakeBucketKey, BucketData)>,
) -> bool {
    forall|i: int| 0 <= i < buckets.len() ==> holds((#[trigger] buckets[i]).1)
}

spec fn model_fits(fits: spec_fn(MeshData) -> bool, model: LoadedMmb) -> bool {
    forall|k: int| 0 <= k < model.submeshes@.len() ==> fits((#[trigger] model.submeshes@[k])@)
}

spec fn spawn_fits(
    fits: spec_fn(MeshData) -> bool,
    model: Option<LoadedMmb>,
    placed: PlacedModel,
) -> bool {
    model matches Some(m) ==> model_fits(fits, m) && placed_as(m, placed)
}

proof fn lemma_mesh_added_keeps(
    holds: spec_fn(BucketData) -> bool,
    fits: spec_fn(MeshData) -> bool,
    buckets: Seq<(BakeBucketKey, BucketData)>,
    key: BakeBucketKey,
    name: Seq<char>,
    mesh: MeshData,
    placed: PlacedMesh,
)
    requires
        is_kept(holds, fits),
        all_hold(holds, buckets),
        fits(mesh),
        placed.positions@.len() == mesh.positions.len(),
        placed.normals@.len() == mesh.normals.len(),
    ensures
        all_hold(holds, mesh_added(buckets, key, name, mesh, placed)),
    decreases buckets.len(),
{
    let after = mesh_added(buckets, key, name, mesh, placed);
    let positions = placed.positions@;
    let normals = placed.normals@;
    if buckets.len() == 0 {
        assert(holds(fresh_bucket(name, mesh)));
        assert(holds(appended(fresh_bucket(name, mesh), mesh, positions, normals)));
    } else if buckets[0].0 == key {
        assert(holds(buckets[0].1));
        assert(holds(appended(buckets[0].1, mesh, positions, normals)));
        assert forall|i: int| 0 <= i < after.len() implies holds((#[trigger] after[i]).1) by {
            if i > 0 {
                assert(after[i] == buckets[i]);
            }
        }
    } else {
        let rest = buckets.drop_first();
        let more = mesh_added(rest, key, name, mesh, placed);
        assert forall|i: int| 0 <= i < rest.len() implies holds((#[trigger] rest[i]).1) by {
            assert(rest[i] == buckets[i + 1]);
        }
        lemma_mesh_added_keeps(holds, fits, rest, key, name, mesh, placed);
        assert forall|i: int| 0 <= i < after.len() implies holds((#[trigger] after[i]).1) by {
            if i > 0 {
                assert(after[i] == more[i - 1]);
            } else {
                assert(after[0] == buckets[0]);
            }
        }
    }
}

proof fn lemma_model_added_keeps(
    holds: spec_fn(BucketData) -> bool,
    fits: spec_fn(MeshData) -> bool,
    buckets: Seq<(BakeBucketKey, BucketData)>,
    spawn: ZoneMmbSpawn,
    model: LoadedMmb,
    placed: PlacedModel,
    count: nat,
)
    requires
        is_kept(holds, fits),
        all_hold(holds, buckets),
        model_fits(fits, model),
        placed_as(model, placed),
        count <= model.submeshes@.len(),
    ensures
        all_hold(holds, model_added(buckets, spawn, model, placed, count)),
    decreases count,
{
    if count > 0 {
        let shorter = (count - 1) as nat;
        let mesh = model.submeshes@[count - 1]@;
        assert(fits(mesh));
        lemma_model_added_keeps(holds, fits, buckets, spawn, model, placed, shorter);
        if mesh.positions.len() > 0 && mesh.indices.len() > 0 {
            lemma_mesh_added_keeps(
                holds,
                fits,
                model_added(buckets, spawn, model, placed, shorter),
                bucket_key(spawn, shorter as usize, mirroring(Some(placed.determinant))),
                model.zone_mesh_name@,
                mesh,
                placed.meshes@[count - 1],
            );
        }
    }
}

proof fn lemma_spawns_added_keep(
    holds: spec_fn(BucketData) -> bool,
    fits: spec_fn(MeshData) -> bool,
    buckets: Seq<(BakeBucketKey, BucketData)>,
    parse: MmbParseCache,
    file_id: u32,
    spawns: Seq<ZoneMmbSpawn>,
    from: int,
    placed: Seq<PlacedModel>,
    count: nat,
)
    requires
        is_kept(holds, fits),
        all_hold(holds, buckets),
        forall|k: int|
            0 <= k < count ==> #[trigger] spawn_fits(
                fits,
                parse.model(file_id, spawns[from + k].chunk_idx),
                placed[k],
            ),
    ensures
        all_hold(
            holds,
            spawns_added(buckets, parse, file_id, spawns, from, placed, count),
        ),
    decreases count,
{
    if count > 0 {
        let shorter = (count - 1) as nat;
        let before = spawns_added(buckets, parse, file_id, spawns, from, placed, shorter);
        let spawn = spawns[from + count - 1];
        let p = placed[count - 1];
        lemma_spawns_added_keep(
            holds,
            fits,
            buckets,
            parse,
            file_id,
            spawns,
            from,
            placed,
            shorter,
        );
        if let Some(m) = parse.model(file_id, spawn.chunk_idx) {
            assert(spawn_fits(fits, Some(m), p)) by {
                let k = count - 1;
                assert(spawn_fits(
                    fits,
                    parse.model(file_id, spawns[from + k].chunk_idx),
                    placed[k],
                ));
            }
            lemma_model_added_keeps(holds, fits, before, spawn, m, p, m.submeshes@.len());
        }
    }
}

/// Merging shifts indices by the vertices that are there: where every index of
/// the merged meshes and of the models is that of a vertex, so is every index
/// after merging.
pub proof fn merged_indices_stay_in_range(
    buckets: Seq<(BakeBucketKey, BucketData)>,
    parse: MmbParseCache,
    file_id: u32,
    spawns: Seq<ZoneMmbSpawn>,
    from: int,
    placed: Seq<PlacedModel>,
    count: nat,
)
    requires
        all_in_range(buckets),
        forall|k: int|
            0 <= k < count ==> (parse.model(file_id, spawns[from + k].chunk_idx) matches Some(m)
                ==> model_in_range(m) && placed_as(m, #[trigger] placed[k])),
    ensures
        all_in_range(spawns_added(buckets, parse, file_id, spawns, from, placed, count)),
{
    let holds = |b: BucketData| bucket_in_range(b);
    let fits = |m: MeshData| mesh_in_range(m);
    assert(is_kept(holds, fits)) by {
        assert forall|b: BucketData, mesh: MeshData, positions: Seq<Vec3>, normals: Seq<Vec3>|
            holds(b) && fits(mesh) && positions.len() == mesh.positions.len() && normals.len()
                == mesh.normals.len() implies holds(
            #[trigger] appended(b, mesh, positions, normals),
        ) by {
            lemma_appended_in_range(b, mesh, positions, normals);
        }
    }
    assert forall|k: int| 0 <= k < count implies #[trigger] spawn_fits(
        fits,
        parse.model(file_id, spawns[from + k].chunk_idx),
        placed[k],
    ) by {
        if let Some(m) = parse.model(file_id, spawns[from + k].chunk_idx) {
            assert(placed_as(m, placed[k]));
            assert(model_in_range(m));
        }
    }
    lemma_spawns_added_keep(
        holds,
        fits,
        buckets,
        parse,
        file_id,
        spawns,
        from,
        placed,
        count,
    );
    let after = spawns_added(buckets, parse, file_id, spawns, from, placed, count);
    assert forall|i: int| 0 <= i < after.len() implies bucket_in_range((#[trigger] after[i]).1) by {
        assert(holds(after[i].1));
    }
}

/// Every mesh can be drawn.
pub open spec fn all_well_formed(buckets: Seq<(BakeBucketKey, BucketData)>) -> bool {
    forall|i: int| 0 <= i < buckets.len() ==> well_formed_bucket((#[trigger] buckets[i]).1)
}

/// Every submesh of the model is well formed.
pub open spec fn well_formed_model(model: LoadedMmb) -> bool {
    forall|k: int|
        0 <= k < model.submeshes@.len() ==> well_formed_mesh((#[trigger] model.submeshes@[k])@)
}

/// A bake of well formed models gives meshes that can be drawn: as many normals,
/// texture coordinates and colours as vertices, whole triangles, and no index
/// past the vertices.
pub proof fn baked_meshes_are_well_formed(
    buckets: Seq<(BakeBucketKey, BucketData)>,
    parse: MmbParseCache,
    file_id: u32,
    spawns: Seq<ZoneMmbSpawn>,
    from: int,
    placed: Seq<PlacedModel>,
    count: nat,
)
    requires
        all_well_formed(buckets),
        forall|k: int|
            0 <= k < count ==> (parse.model(file_id, spawns[from + k].chunk_idx) matches Some(m)
                ==> well_formed_model(m) && placed_as(m, #[trigger] placed[k])),
    ensures
        all_well_formed(spawns_added(buckets, parse, file_id, spawns, from, placed, count)),
{
    let holds = |b: BucketData| well_formed_bucket(b);
    let fits = |m: MeshData| well_formed_mesh(m);
    assert(is_kept(holds, fits)) by {
        assert forall|b: BucketData, mesh: MeshData, positions: Seq<Vec3>, normals: Seq<Vec3>|
            holds(b) && fits(mesh) && positions.len() == mesh.positions.len() && normals.len()
                == mesh.normals.len() implies holds(
            #[trigger] appended(b, mesh, positions, normals),
        ) by {
            merging_keeps_buckets_well_formed(b, b.zone_mesh_name, mesh, positions, normals);
        }
    }
    assert forall|k: int| 0 <= k < count implies #[trigger] spawn_fits(
        fits,
        parse.model(file_id, spawns[from + k].chunk_idx),
        placed[k],
    ) by {
        if let Some(m) = parse.model(file_id, spawns[from + k].chunk_idx) {
            assert(placed_as(m, placed[k]));
            assert(well_formed_model(m));
        }
    }
    lemma_spawns_added_keep(
        holds,
        fits,
        buckets,
        parse,
        file_id,
        spawns,
        from,
        placed,
        count,
    );
    let after = spawns_added(buckets, parse, file_id, spawns, from, placed, count);
    assert forall|i: int| 0 <= i < after.len() implies well_formed_bucket(
        (#[trigger] after[i]).1,
    ) by {
        assert(holds(after[i].1));
    }
}

/// Where the data of a submesh begin in a merged mesh.
pub struct Offsets {
    pub vertex: int,
    pub normal: int,
    pub uv: int,
    pub color: int,
    pub index: int,
}

/// What a merged mesh holds from given places on is a submesh as a placement
/// puts it: vertex by vertex the position and the normal of the placement and
/// the texture coordinate and the colour of the submesh, and the indices of the
/// submesh, counted from its first vertex here.
pub open spec fn holds_at(b: BucketData, at: Offsets, mesh: MeshData, placed: PlacedMesh) -> bool {
    &&& 0 <= at.vertex && at.vertex + mesh.positions.len() <= b.positions.len()
    &&& forall|v: int|
        at.vertex <= v < at.vertex + mesh.positions.len() ==> #[trigger] b.positions[v]
            == placed.positions@[v - at.vertex]
    &&& mesh.normals.len() == mesh.positions.len() ==> {
        &&& 0 <= at.normal && at.normal + mesh.normals.len() <= b.normals.len()
        &&& forall|v: int|
            at.normal <= v < at.normal + mesh.normals.len() ==> #[trigger] b.normals[v]
                == placed.normals@[v - at.normal]
    }
    &&& 0 <= at.uv && at.uv + mesh.uvs.len() <= b.uvs.len()
    &&& forall|v: int|
        at.uv <= v < at.uv + mesh.uvs.len() ==> #[trigger] b.uvs[v] == mesh.uvs[v - at.uv]
    &&& 0 <= at.color && at.color + mesh.colors.len() <= b.colors.len()
    &&& forall|v: int|
        at.color <= v < at.color + mesh.colors.len() ==> #[trigger] b.colors[v]
            == mesh.colors[v - at.color]
    &&& 0 <= at.index && at.index + mesh.indices.len() <= b.indices.len()
    &&& forall|v: int|
        at.index <= v < at.index + mesh.indices.len() ==> #[trigger] b.indices[v] == (at.vertex
            + mesh.indices[v - at.index]) % 0x1_0000_0000
}

/// Adding a submesh puts its own data, as the placement has them, right behind
/// what the mesh with its key held, and nothing else: every list grows by as many
/// as the submesh has. Where there is one normal for each vertex the normals are
/// those of the placement, and else none are added. A mesh that is begun has the
/// names and the blending of the submesh; one that was there keeps what it had.
pub proof fn a_submesh_is_added_as_it_is_placed(
    buckets: Seq<(BakeBucketKey, BucketData)>,
    key: BakeBucketKey,
    zone_mesh_name: Seq<char>,
    mesh: MeshData,
    placed: PlacedMesh,
)
    requires
        placed.positions@.len() == mesh.positions.len(),
        placed.normals@.len() == mesh.normals.len(),
    ensures
        ({
            let after = bucket_content(mesh_added(buckets, key, zone_mesh_name, mesh, placed), key);
            let at = match bucket_content(buckets, key) {
                Some(b) => Offsets {
                    vertex: b.positions.len() as int,
                    normal: b.normals.len() as int,
                    uv: b.uvs.len() as int,
                    color: b.colors.len() as int,
                    index: b.indices.len() as int,
                },
                None => Offsets { vertex: 0, normal: 0, uv: 0, color: 0, index: 0 },
            };
            &&& after is Some
            &&& holds_at(after->0, at, mesh, placed)
            &&& after->0.positions.len() == at.vertex + mesh.positions.len()
            &&& after->0.normals.len() == at.normal + if mesh.normals.len()
                == mesh.positions.len() {
                mesh.normals.len()
            } else {
                0
            }
            &&& after->0.uvs.len() == at.uv + mesh.uvs.len()
            &&& after->0.colors.len() == at.color + mesh.colors.len()
            &&& after->0.indices.len() == at.index + mesh.indices.len()
            &&& match bucket_content(buckets, key) {
                Some(b) => extended(b, after->0),
                None => {
                    &&& after->0.zone_mesh_name == zone_mesh_name
                    &&& after->0.variant_name == trimmed(mesh.variant_name)
                    &&& after->0.blending == mesh.blending
                },
            }
        }),
{
    a_mesh_goes_into_its_own_bucket(buckets, key, zone_mesh_name, mesh, placed, key);
    let before = match bucket_content(buckets, key) {
        Some(b) => b,
        None => fresh_bucket(zone_mesh_name, mesh),
    };
    lemma_appended_extends(before, mesh, placed.positions@, placed.normals@);
    let b = appended(before, mesh, placed.positions@, placed.normals@);
    let n = before.indices.len();
    assert forall|v: int| n <= v < n + mesh.indices.len() implies #[trigger] b.indices[v] == (
    before.positions.len() + mesh.indices[v - n]) % 0x1_0000_0000 by {
        assert(b.indices[v] == shifted(before.positions.len(), mesh.indices[v - n]));
    }
}

proof fn lemma_holds_at_extended(
    before: BucketData,
    after: BucketData,
    at: Offsets,
    mesh: MeshData,
    placed: PlacedMesh,
)
    requires
        holds_at(before, at, mesh, placed),
        extended(before, after),
    ensures
        holds_at(after, at, mesh, placed),
{
    assert forall|v: int| 0 <= v < before.positions.len() implies #[trigger] after.positions[v]
        == before.positions[v] by {
        assert(after.positions.subrange(0, before.positions.len() as int)[v] == before.positions[v]);
    }
    assert forall|v: int| 0 <= v < before.normals.len() implies #[trigger] after.normals[v]
        == before.normals[v] by {
        assert(after.normals.subrange(0, before.normals.len() as int)[v] == before.normals[v]);
    }
    assert forall|v: int| 0 <= v < before.uvs.len() implies #[trigger] after.uvs[v]
        == before.uvs[v] by {
        assert(after.uvs.subrange(0, before.uvs.len() as int)[v] == before.uvs[v]);
    }
    assert forall|v: int| 0 <= v < before.colors.len() implies #[trigger] after.colors[v]
        == before.colors[v] by {
        assert(after.colors.subrange(0, before.colors.len() as int)[v] == before.colors[v]);
    }
    assert forall|v: int| 0 <= v < before.indices.len() implies #[trigger] after.indices[v]
        == before.indices[v] by {
        assert(after.indices.subrange(0, before.indices.len() as int)[v] == before.indices[v]);
    }
}

proof fn lemma_model_added_grows(
    buckets: Seq<(BakeBucketKey, BucketData)>,
    spawn: ZoneMmbSpawn,
    model: LoadedMmb,
    placed: PlacedModel,
    first: nat,
    count: nat,
)
    requires
        first <= count,
    ensures
        all_extended(
            model_added(buckets, spawn, model, placed, first),
            model_added(buckets, spawn, model, placed, count),
        ),
    decreases count,
{
    if first == count {
        lemma_extended_by_itself(model_added(buckets, spawn, model, placed, count));
    } else {
        let shorter = (count - 1) as nat;
        let before = model_added(buckets, spawn, model, placed, shorter);
        let mesh = model.submeshes@[count - 1]@;
        lemma_model_added_grows(buckets, spawn, model, placed, first, shorter);
        if mesh.positions.len() > 0 && mesh.indices.len() > 0 {
            lemma_mesh_added_extends(
                before,
                bucket_key(spawn, shorter as usize, mirroring(Some(placed.determinant))),
                model.zone_mesh_name@,
                mesh,
                placed.meshes@[count - 1],
            );
            lemma_all_extended_transitive(
                model_added(buckets, spawn, model, placed, first),
                before,
                model_added(buckets, spawn, model, placed, count),
            );
        }
    }
}

proof fn lemma_spawns_added_grow(
    buckets: Seq<(BakeBucketKey, BucketData)>,
    parse: MmbParseCache,
    file_id: u32,
    spawns: Seq<ZoneMmbSpawn>,
    from: int,
    placed: Seq<PlacedModel>,
    first: nat,
    count: nat,
)
    requires
        first <= count,
    ensures
        all_extended(
            spawns_added(buckets, parse, file_id, spawns, from, placed, first),
            spawns_added(buckets, parse, file_id, spawns, from, placed, count),
        ),
    decreases count,
{
    let start = spawns_added(buckets, parse, file_id, spawns, from, placed, first);
    if first == count {
        lemma_extended_by_itself(start);
    } else {
        let shorter = (count - 1) as nat;
        let before = spawns_added(buckets, parse, file_id, spawns, from, placed, shorter);
        let after = spawns_added(buckets, parse, file_id, spawns, from, placed, count);
        let spawn = spawns[from + count - 1];
        lemma_spawns_added_grow(buckets, parse, file_id, spawns, from, placed, first, shorter);
        if let Some(m) = parse.model(file_id, spawn.chunk_idx) {
            lemma_model_added_extends(before, spawn, m, placed[count - 1], m.submeshes@.len());
            lemma_all_extended_transitive(start, before, after);
        }
    }
}

/// The vertices that a placement contributed carry that placement's own data:
/// after merging, every submesh of every placement whose model is loaded, if it
/// has vertices and indices, stands somewhere in the mesh for its chunk, its
/// place in the model, the winding that the sign of the determinant gives and the
/// interior of the placement. It stands there vertex by vertex as it was placed.
/// The place of that mesh and the places in it are returned.
pub proof fn every_placement_keeps_its_own_data(
    buckets: Seq<(BakeBucketKey, BucketData)>,
    parse: MmbParseCache,
    file_id: u32,
    spawns: Seq<ZoneMmbSpawn>,
    from: int,
    placed: Seq<PlacedModel>,
    count: nat,
    k: int,
    s: int,
) -> (r: (int, Offsets))
    requires
        0 <= k < count,
        parse.model(file_id, spawns[from + k].chunk_idx) matches Some(m) && {
            &&& placed_as(m, placed[k])
            &&& 0 <= s < m.submeshes@.len()
            &&& m.submeshes@[s].positions@.len() > 0
            &&& m.submeshes@[s].indices@.len() > 0
        },
    ensures
        ({
            let after = spawns_added(buckets, parse, file_id, spawns, from, placed, count);
            let spawn = spawns[from + k];
            let m = parse.model(file_id, spawn.chunk_idx)->0;
            let d = placed[k].determinant;
            &&& 0 <= r.0 < after.len()
            &&& after[r.0].0.chunk_idx == spawn.chunk_idx
            &&& after[r.0].0.sub_index == s
            &&& after[r.0].0.sub_area_link == spawn.sub_area_link
            &&& after[r.0].0.mirrored == (!d.nan() && d.ordinal() < 0)
            &&& holds_at(after[r.0].1, r.1, m.submeshes@[s]@, placed[k].meshes@[s])
        }),
{
    let spawn = spawns[from + k];
    let m = parse.model(file_id, spawn.chunk_idx)->0;
    let p = placed[k];
    let mesh = m.submeshes@[s]@;
    let key = bucket_key(spawn, s as usize, mirroring(Some(p.determinant)));
    let start = spawns_added(buckets, parse, file_id, spawns, from, placed, k as nat);
    let next = spawns_added(buckets, parse, file_id, spawns, from, placed, (k + 1) as nat);
    let after = spawns_added(buckets, parse, file_id, spawns, from, placed, count);
    let before = model_added(start, spawn, m, p, s as nat);
    let with = model_added(start, spawn, m, p, (s + 1) as nat);
    assert(next == model_added(start, spawn, m, p, m.submeshes@.len()));
    assert(with == mesh_added(before, key, m.zone_mesh_name@, mesh, p.meshes@[s]));
    assert(p.meshes@[s].positions@.len() == mesh.positions.len());
    a_submesh_is_added_as_it_is_placed(before, key, m.zone_mesh_name@, mesh, p.meshes@[s]);
    lemma_place_in_range(with, key);
    let at = match bucket_content(before, key) {
        Some(b) => Offsets {
            vertex: b.positions.len() as int,
            normal: b.normals.len() as int,
            uv: b.uvs.len() as int,
            color: b.colors.len() as int,
            index: b.indices.len() as int,
        },
        None => Offsets { vertex: 0, normal: 0, uv: 0, color: 0, index: 0 },
    };
    let place = bucket_place(with, key)->0;
    lemma_model_added_grows(start, spawn, m, p, (s + 1) as nat, m.submeshes@.len());
    lemma_spawns_added_grow(
        buckets,
        parse,
        file_id,
        spawns,
        from,
        placed,
        (k + 1) as nat,
        count,
    );
    lemma_all_extended_transitive(with, next, after);
    assert(with[place].0 == after[place].0);
    lemma_holds_at_extended(with[place].1, after[place].1, at, mesh, p.meshes@[s]);
    assert(m.submeshes@.len() == m.submeshes.len());
    (place, at)
}

/// How many vertices and how many indices merged meshes have together.
pub open spec fn totals(buckets: Seq<(BakeBucketKey, BucketData)>) -> (int, int)
    decreases buckets.len(),
{
    if buckets.len() == 0 {
        (0, 0)
    } else {
        let rest = totals(buckets.drop_first());
        (
            buckets[0].1.positions.len() + rest.0,
            buckets[0].1.indices.len() + rest.1,
        )
    }
}

/// How many vertices and how many indices the first submeshes of a model have
/// together, without those that have no vertices or no indices.
pub open spec fn model_totals(model: LoadedMmb, count: nat) -> (int, int)
    decreases count,
{
    if count == 0 {
        (0, 0)
    } else {
        let before = model_totals(model, (count - 1) as nat);
        let vertices = model.submeshes@[count - 1].positions@.len();
        let indices = model.submeshes@[count - 1].indices@.len();
        if vertices > 0 && indices > 0 {
            (before.0 + vertices, before.1 + indices)
        } else {
            before
        }
    }
}

/// How many vertices and how many indices the models of placements have
/// together.
pub open spec fn placement_totals(
    parse: MmbParseCache,
    file_id: u32,
    spawns: Seq<ZoneMmbSpawn>,
    from: int,
    count: nat,
) -> (int, int)
    decreases count,
{
    if count == 0 {
        (0, 0)
    } else {
        let before = placement_totals(parse, file_id, spawns, from, (count - 1) as nat);
        match parse.model(file_id, spawns[from + count - 1].chunk_idx) {
            Some(m) => {
                let more = model_totals(m, m.submeshes@.len());
                (before.0 + more.0, before.1 + more.1)
            },
            None => before,
        }
    }
}

proof fn lemma_mesh_added_totals(
    buckets: Seq<(BakeBucketKey, BucketData)>,
    key: BakeBucketKey,
    name: Seq<char>,
    mesh: MeshData,
    placed: PlacedMesh,
)
    requires
        placed.positions@.len() == mesh.positions.len(),
    ensures
        ({
            let before = totals(buckets);
            totals(mesh_added(buckets, key, name, mesh, placed)) == (
                before.0 + mesh.positions.len(),
                before.1 + mesh.indices.len(),
            )
        }),
    decreases buckets.len(),
{
    let after = mesh_added(buckets, key, name, mesh, placed);
    if buckets.len() == 0 {
        assert(after.drop_first() =~= Seq::empty());
        assert(totals(after.drop_first()) == (0int, 0int));
    } else if buckets[0].0 == key {
        assert(after.drop_first() =~= buckets.drop_first());
    } else {
        lemma_mesh_added_totals(buckets.drop_first(), key, name, mesh, placed);
        assert(after.drop_first() =~= mesh_added(
            buckets.drop_first(),
            key,
            name,
            mesh,
            placed,
        ));
    }
}

proof fn lemma_model_added_totals(
    buckets: Seq<(BakeBucketKey, BucketData)>,
    spawn: ZoneMmbSpawn,
    model: LoadedMmb,
    placed: PlacedModel,
    count: nat,
)
    requires
        placed_as(model, placed),
        count <= model.submeshes@.len(),
    ensures
        ({
            let before = totals(buckets);
            let more = model_totals(model, count);
            totals(model_added(buckets, spawn, model, placed, count)) == (
                before.0 + more.0,
                before.1 + more.1,
            )
        }),
    decreases count,
{
    if count > 0 {
        let shorter = (count - 1) as nat;
        let mesh = model.submeshes@[count - 1]@;
        lemma_model_added_totals(buckets, spawn, model, placed, shorter);
        if mesh.positions.len() > 0 && mesh.indices.len() > 0 {
            assert(placed.meshes@[count - 1].positions@.len() == mesh.positions.len());
            lemma_mesh_added_totals(
                model_added(buckets, spawn, model, placed, shorter),
                bucket_key(spawn, shorter as usize, mirroring(Some(placed.determinant))),
                model.zone_mesh_name@,
                mesh,
                placed.meshes@[count - 1],
            );
        }
    }
}

/// Nothing is merged twice and nothing is made up: merging adds as many vertices
/// and as many indices as the models of the placements have.
pub proof fn every_placement_is_merged_once(
    buckets: Seq<(BakeBucketKey, BucketData)>,
    parse: MmbParseCache,
    file_id: u32,
    spawns: Seq<ZoneMmbSpawn>,
    from: int,
    placed: Seq<PlacedModel>,
    count: nat,
)
    requires
        forall|k: int|
            0 <= k < count ==> (parse.model(file_id, spawns[from + k].chunk_idx) matches Some(m)
                ==> placed_as(m, #[trigger] placed[k])),
    ensures
        ({
            let before = totals(buckets);
            let more = placement_totals(parse, file_id, spawns, from, count);
            totals(spawns_added(buckets, parse, file_id, spawns, from, placed, count)) == (
                before.0 + more.0,
                before.1 + more.1,
            )
        }),
    decreases count,
{
    if count > 0 {
        let shorter = (count - 1) as nat;
        let spawn = spawns[from + count - 1];
        every_placement_is_merged_once(buckets, parse, file_id, spawns, from, placed, shorter);
        if let Some(m) = parse.model(file_id, spawn.chunk_idx) {
            assert(placed_as(m, placed[count - 1]));
            lemma_model_added_totals(
                spawns_added(buckets, parse, file_id, spawns, from, placed, shorter),
                spawn,
                m,
                placed[count - 1],
                m.submeshes@.len(),
            );
        }
    }
}

/// How many placements are merged after merging up to `upto` or to the end:
/// those up to there, and never fewer than before.
pub open spec fn merged_after(merged: int, upto: int, total: int) -> int {
    let end = if upto <= total {
        upto
    } else {
        total
    };
    if merged < end {
        end
    } else {
        merged
    }
}

proof fn lemma_placed_behind_does_not_matter(
    buckets: Seq<(BakeBucketKey, BucketData)>,
    parse: MmbParseCache,
    file_id: u32,
    spawns: Seq<ZoneMmbSpawn>,
    from: int,
    placed: Seq<PlacedModel>,
    n: int,
    count: nat,
)
    requires
        count <= n <= placed.len(),
    ensures
        spawns_added(buckets, parse, file_id, spawns, from, placed.take(n), count)
            == spawns_added(buckets, parse, file_id, spawns, from, placed, count),
    decreases count,
{
    if count > 0 {
        lemma_placed_behind_does_not_matter(
            buckets,
            parse,
            file_id,
            spawns,
            from,
            placed,
            n,
            (count - 1) as nat,
        );
        assert(placed.take(n)[count - 1] == placed[count - 1]);
    }
}

/// Merging up to one place and then up to a later one gives what merging up to
/// the later one at once gives: as many placements merged, and the same meshes.
pub proof fn merging_twice_is_merging_once(
    buckets: Seq<(BakeBucketKey, BucketData)>,
    parse: MmbParseCache,
    file_id: u32,
    spawns: Seq<ZoneMmbSpawn>,
    merged: int,
    placed: Seq<PlacedModel>,
    a: int,
    b: int,
)
    requires
        0 <= merged <= spawns.len(),
        a <= b,
        placed.len() == merged_after(merged, b, spawns.len() as int) - merged,
    ensures
        ({
            let total = spawns.len() as int;
            let half = merged_after(merged, a, total);
            let whole = merged_after(merged, b, total);
            let first = spawns_added(
                buckets,
                parse,
                file_id,
                spawns,
                merged,
                placed.take(half - merged),
                (half - merged) as nat,
            );
            &&& merged_after(half, b, total) == whole
            &&& spawns_added(
                first,
                parse,
                file_id,
                spawns,
                half,
                placed.skip(half - merged),
                (whole - half) as nat,
            ) == spawns_added(
                buckets,
                parse,
                file_id,
                spawns,
                merged,
                placed,
                (whole - merged) as nat,
            )
        }),
{
    let total = spawns.len() as int;
    let half = merged_after(merged, a, total);
    let whole = merged_after(merged, b, total);
    let n = (half - merged) as nat;
    let m = (whole - half) as nat;
    lemma_placed_behind_does_not_matter(
        buckets,
        parse,
        file_id,
        spawns,
        merged,
        placed,
        n as int,
        n,
    );
    batches_merge_like_one(buckets, parse, file_id, spawns, merged, placed, n, m);
    assert(n + m == (whole - merged) as nat);
}

/// Merges placements, up to `upto` or to the end. The placed models stand for
/// the placements one by one, from the first that is not merged.
pub fn merge_bake_placements<T>(
    active: &mut ActiveBake<T>,
    parse: &MmbParseCache,
    upto: usize,
    placed: &Vec<PlacedModel>,
)
    requires
        old(active).wf(),
        ({
            let count = merged_after(
                old(active).merged as int,
                upto as int,
                old(active).spawns@.len() as int,
            ) - old(active).merged;
            &&& count > 0 ==> placed@.len() == count
            &&& forall|k: int|
                0 <= k < count && parse.model(
                    old(active).file_id,
                    old(active).spawns@[old(active).merged + k].chunk_idx,
                ) is Some ==> placed_as(
                    parse.model(
                        old(active).file_id,
                        old(active).spawns@[old(active).merged + k].chunk_idx,
                    )->0,
                    #[trigger] placed@[k],
                )
        }),
    ensures
        final(active).wf(),
        final(active).merged == merged_after(
            old(active).merged as int,
            upto as int,
            old(active).spawns@.len() as int,
        ),
        bucket_data(final(active).buckets@) == spawns_added(
            bucket_data(old(active).buckets@),
            *parse,
            old(active).file_id,
            old(active).spawns@,
            old(active).merged as int,
            placed@,
            (final(active).merged - old(active).merged) as nat,
        ),
        final(active).file_id == old(active).file_id,
        final(active).slot == old(active).slot,
        final(active).world_pos == old(active).world_pos,
        final(active).spawns == old(active).spawns,
        final(active).chunks == old(active).chunks,
        final(active).done == old(active).done,
        final(active).tasks == old(active).tasks,
        final(active).pending == old(active).pending,
        old(active).merged <= final(active).merged,
        old(active).merged < upto ==> final(active).merged == upto || (final(active).merged < upto
            && final(active).merged == old(active).spawns@.len()),
        upto <= old(active).merged ==> final(active).merged == old(active).merged,
{
    let from: usize = active.merged;
    let total: usize = active.spawns.len();
    let ghost end = if upto <= total {
        upto as int
    } else {
        total as int
    };
    while active.merged < upto && active.merged < active.spawns.len()
        invariant
            active.wf(),
            from == old(active).merged,
            total == old(active).spawns@.len(),
            end == (if upto <= total {
                upto as int
            } else {
                total as int
            }),
            from <= active.merged,
            active.merged <= end || active.merged == from,
            active.file_id == old(active).file_id,
            active.slot == old(active).slot,
            active.world_pos == old(active).world_pos,
            active.spawns == old(active).spawns,
            active.chunks == old(active).chunks,
            active.done == old(active).done,
            active.tasks == old(active).tasks,
            active.pending == old(active).pending,
            from < end ==> placed@.len() == end - from,
            forall|k: int|
                0 <= k < end - from && parse.model(
                    old(active).file_id,
                    old(active).spawns@[from + k].chunk_idx,
                ) is Some ==> placed_as(
                    parse.model(old(active).file_id, old(active).spawns@[from + k].chunk_idx)->0,
                    #[trigger] placed@[k],
                ),
            bucket_data(active.buckets@) == spawns_added(
                bucket_data(old(active).buckets@),
                *parse,
                old(active).file_id,
                old(active).spawns@,
                from as int,
                placed@,
                (active.merged - from) as nat,
            ),
        decreases total - active.merged,
    {
        let spawn = active.spawns[active.merged];
        let k: usize = active.merged - from;
        if let Some(model) = parse.loaded(active.file_id, spawn.chunk_idx) {
            assert(placed_as(*model, placed@[k as int]));
            active.add_model(spawn, model, &placed[k]);
        }
        active.merged = active.merged + 1;
    }
}

/// Ends a frame of the bake: takes the meshes that are to be spawned in it, the
/// next ones in their order. The bake is done when everything is merged and
/// nothing is left to spawn, and then the number of its placements is returned.
/// Else it goes on.
pub fn poll_zone_bake<T>(bake: &mut ZoneBakeState<T>, active: ActiveBake<T>) -> (r: (
    Vec<(BakeBucketKey, BakeBucket)>,
    Option<usize>,
))
    requires
        active.wf(),
    ensures
        ({
            let left = active.buckets@.skip(active.frame_size());
            &&& r.0@ == active.buckets@.take(active.frame_size())
            &&& if active.merged == active.spawns@.len() && left.len() == 0 {
                &&& r.1 == Some(active.merged)
                &&& final(bake).status == Some((active.file_id, active.slot, BakeStatus::Done))
                &&& final(bake).active == old(bake).active
            } else {
                &&& r.1 is None
                &&& final(bake).status == old(bake).status
                &&& final(bake).active matches Some(a) && a.wf() && a.same_but_spawning(&active)
                    && a.buckets@ == left && a.pending@ == (if active.merged
                    == active.spawns@.len() {
                    bucket_keys(left)
                } else {
                    Seq::empty()
                })
            }
        }),
        r.0@.len() <= 24,
        r.1 matches Some(n) ==> {
            &&& r.0@ == active.buckets@
            &&& n == active.spawns@.len()
            &&& active.merged == n
            &&& final(bake).status == Some((active.file_id, active.slot, BakeStatus::Done))
        },
        r.1 is None ==> {
            &&& final(bake).active matches Some(a) && r.0@ + a.buckets@ == active.buckets@
            &&& final(bake).status == old(bake).status
            &&& active.merged < active.spawns@.len() ==> r.0@.len() == 0
            &&& active.merged == active.spawns@.len() ==> r.0@.len() == 24
        },
{
    let mut active = active;
    let out = active.frame_buckets();
    if active.merged >= active.spawns.len() && active.pending.len() == 0 && active.buckets.len()
        == 0 {
        bake.status = Some((active.file_id, active.slot, BakeStatus::Done));
        let n: usize = active.spawns.len();
        (out, Some(n))
    } else {
        bake.active = Some(active);
        (out, None)
    }
}

/// The message on a bake that is done.
pub fn baked_message(file_id: u32, placements: usize) -> (s: String)
    ensures
        s@ == "/load_mzb "@ + decimal(file_id as nat) + ": baked textured zone ("@ + decimal(
            placements as nat,
        ) + " placements)"@,
{
    let mut s = "/load_mzb ".to_owned();
    s.append(decimal_text(file_id as u64).as_str());
    s.append(": baked textured zone (");
    s.append(decimal_text(placements as u64).as_str());
    s.append(" placements)");
    s
}

/// How a merged mesh is drawn: with the texture of its variant, or else the
/// first, as a mesh of the zone. A translucent one takes no part in shadows.
pub fn plan_baked_bucket<'a, H>(
    bucket: &BakeBucket,
    key: &BakeBucketKey,
    pool: &'a TexturePool<H>,
    state: RenderState,
) -> (r: (Option<&'a H>, MaterialPlan, bool))
    requires
        pool.wf(),
    ensures
        ({
            let place = chosen_place(pool.places(), pool.handles@.len(), bucket@.variant_name);
            &&& match r.0 {
                Some(h) => place is Some && Some(*h) == pool.handles@[place->0],
                None => place is None,
            }
            &&& r.1 == material_of(
                bucket@.zone_mesh_name,
                bucket@.blending,
                place is Some,
                key.mirrored,
                state,
                None,
            )
            &&& r.2 == (r.1.alpha_mode == AlphaMode::Blend)
        }),
        r.1.textured == (r.0 is Some),
        r.1.key.mirrored == key.mirrored,
        r.1.key.back_face_culling == state.back_face_culling,
        r.1.key.z_bias_level == state.z_bias_level,
        r.1.key.depth_write == state.depth_write,
{
    let texture = pool.texture_for(bucket.variant_name.as_str());
    let plan = plan_material(
        bucket.zone_mesh_name.as_str(),
        bucket.blending,
        texture.is_some(),
        key.mirrored,
        state,
        None,
    );
    (texture, plan, plan.blended)
}

} // verus!
