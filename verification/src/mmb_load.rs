//! What is made of a model file: meshes from its models, and one set of
//! textures that all of its chunks share.
use crate::geometry::{Vec2, Vec3, Vec4};
use crate::kept::{count_kept, filtering_keeps_in_order};
use crate::scalar::{Scalar, SIGN_BIT};
use crate::text::{decimal, decimal_text, trim, trimmed};
use std::collections::HashMap;
use std::sync::Arc;
use vstd::prelude::*;

verus! {

broadcast use vstd::std_specs::hash::group_hash_axioms;

/// The coordinate beyond which a vertex is taken for garbage: ten thousand.
pub const COORD_SANE_LIMIT_BITS: u32 = 0x461c_4000;

/// What a chunk of a file holds, as far as it matters here.
#[derive(Clone, Copy, PartialEq, Eq, Debug, Structural)]
pub enum ChunkKind {
    Mmb,
    Img,
    Other,
}

/// Why a chunk cannot be loaded as a model.
#[derive(Clone, Copy, PartialEq, Eq, Debug, Structural)]
pub enum LoadError {
    /// The file has fewer chunks.
    OutOfRange { chunks: usize, chunk_idx: usize },
    /// The chunk holds something else.
    NotMmb { chunk_idx: usize },
}

/// A vertex, with its colour in linear light.
#[derive(Clone, Copy, PartialEq, Eq, Debug, Structural)]
pub struct MmbVertex {
    pub pos: Vec3,
    pub normal: Vec3,
    pub uv: Vec2,
    pub color: Vec4,
}

/// A model as the file has it.
pub struct MmbModel {
    pub texture_name: String,
    pub vertices: Vec<MmbVertex>,
    pub indices: Vec<u16>,
    pub blending: u16,
}

/// A mesh that can be drawn.
pub struct MmbSubMesh {
    pub variant_name: String,
    pub positions: Vec<Vec3>,
    pub normals: Vec<Vec3>,
    pub uvs: Vec<Vec2>,
    pub colors: Vec<Vec4>,
    pub indices: Vec<u32>,
    pub blending: u16,
}

/// A decoded image, four bytes to the pixel.
#[derive(Debug, Clone)]
pub struct DecodedTexture {
    pub width: u32,
    pub height: u32,
    pub rgba: Vec<u8>,
}

#[derive(Debug, Clone)]
pub struct NamedTexture {
    pub name: String,
    pub texture: DecodedTexture,
}

/// A chunk of a file: what it holds, and for an image what came of decoding
/// it and of reading its name.
pub struct FileChunk {
    pub kind: ChunkKind,
    pub texture: Option<DecodedTexture>,
    pub texture_name: Option<String>,
}

/// A model chunk, loaded.
pub struct LoadedMmb {
    pub submeshes: Vec<MmbSubMesh>,
    pub textures: Arc<Vec<NamedTexture>>,
    pub asset_name: String,
    /// A name that starts with an underscore makes the model a cutout.
    pub zone_mesh_name: String,
}

/// The content of a mesh.
#[verifier::ext_equal]
pub struct MeshData {
    pub variant_name: Seq<char>,
    pub positions: Seq<Vec3>,
    pub normals: Seq<Vec3>,
    pub uvs: Seq<Vec2>,
    pub colors: Seq<Vec4>,
    pub indices: Seq<u32>,
    pub blending: u16,
}

impl View for MmbSubMesh {
    type V = MeshData;

    open spec fn view(&self) -> MeshData {
        MeshData {
            variant_name: self.variant_name@,
            positions: self.positions@,
            normals: self.normals@,
            uvs: self.uvs@,
            colors: self.colors@,
            indices: self.indices@,
            blending: self.blending,
        }
    }
}

/// The contents of meshes, one by one.
pub open spec fn mesh_data(meshes: Seq<MmbSubMesh>) -> Seq<MeshData> {
    meshes.map_values(|m: MmbSubMesh| m@)
}

/// A coordinate that is a number, and not beyond the limit on either side.
pub open spec fn sane(c: Scalar) -> bool {
    c.magnitude() <= COORD_SANE_LIMIT_BITS
}

pub open spec fn sane_point(p: Vec3) -> bool {
    sane(p.x) && sane(p.y) && sane(p.z)
}

/// The number of vertices that indices are held against: sixteen bits of it.
pub open spec fn vertex_limit(m: MmbModel) -> int {
    m.vertices@.len() as int % 0x1_0000
}

/// The indices of the leading triangles that stay below the limit.
pub open spec fn kept_indices(indices: Seq<u16>, triangles: nat, limit: int) -> Seq<u32>
    decreases triangles,
{
    if triangles == 0 {
        Seq::empty()
    } else {
        let before = kept_indices(indices, (triangles - 1) as nat, limit);
        let a = indices[3 * (triangles - 1)];
        let b = indices[3 * (triangles - 1) + 1];
        let c = indices[3 * (triangles - 1) + 2];
        if a < limit && b < limit && c < limit {
            before + seq![a as u32, b as u32, c as u32]
        } else {
            before
        }
    }
}

/// The indices of a model's mesh: those of its whole triangles that stay below
/// the limit.
pub open spec fn model_indices(m: MmbModel) -> Seq<u32> {
    kept_indices(m.indices@, m.indices@.len() / 3, vertex_limit(m))
}

/// The model gives a mesh: it has vertices, all of them sane, and a triangle
/// that stays.
pub open spec fn drawable(m: MmbModel) -> bool {
    &&& m.vertices@.len() > 0
    &&& m.indices@.len() > 0
    &&& forall|i: int| 0 <= i < m.vertices@.len() ==> sane_point((#[trigger] m.vertices@[i]).pos)
    &&& model_indices(m).len() > 0
}

/// The mesh of a model.
pub open spec fn model_mesh(m: MmbModel) -> MeshData {
    MeshData {
        variant_name: m.texture_name@,
        positions: m.vertices@.map_values(|v: MmbVertex| v.pos),
        normals: m.vertices@.map_values(|v: MmbVertex| v.normal),
        uvs: m.vertices@.map_values(|v: MmbVertex| v.uv),
        colors: m.vertices@.map_values(|v: MmbVertex| v.color),
        indices: model_indices(m),
        blending: m.blending,
    }
}

/// The meshes of the models that give one, in their order.
pub open spec fn model_meshes(models: Seq<MmbModel>) -> Seq<MeshData> {
    models.filter(|m: MmbModel| drawable(m)).map_values(|m: MmbModel| model_mesh(m))
}

/// A mesh as it can be drawn: whole triangles, one at least, over vertices that
/// exist and that each have a normal, a texture coordinate and a colour.
pub open spec fn well_formed_mesh(m: MeshData) -> bool {
    &&& m.positions.len() > 0
    &&& m.normals.len() == m.positions.len()
    &&& m.uvs.len() == m.positions.len()
    &&& m.colors.len() == m.positions.len()
    &&& m.indices.len() > 0
    &&& m.indices.len() % 3 == 0
    &&& forall|i: int| 0 <= i < m.indices.len() ==> #[trigger] m.indices[i] < m.positions.len()
    &&& forall|i: int| 0 <= i < m.positions.len() ==> sane_point(#[trigger] m.positions[i])
}

proof fn lemma_kept_indices(indices: Seq<u16>, triangles: nat, limit: int)
    ensures
        kept_indices(indices, triangles, limit).len() % 3 == 0,
        forall|i: int|
            0 <= i < kept_indices(indices, triangles, limit).len() ==> #[trigger] kept_indices(
                indices,
                triangles,
                limit,
            )[i] < limit,
    decreases triangles,
{
    if triangles > 0 {
        lemma_kept_indices(indices, (triangles - 1) as nat, limit);
    }
}

/// Every mesh made of a model is well formed.
pub proof fn drawable_models_give_well_formed_meshes(m: MmbModel)
    requires
        drawable(m),
    ensures
        well_formed_mesh(model_mesh(m)),
{
    lemma_kept_indices(m.indices@, m.indices@.len() / 3, vertex_limit(m));
    assert forall|i: int| 0 <= i < m.vertices@.len() implies sane_point(
        #[trigger] model_mesh(m).positions[i],
    ) by {
        assert(sane_point(m.vertices@[i].pos));
    }
}

/// Every mesh of a loaded file is well formed.
pub proof fn loaded_meshes_are_well_formed(models: Seq<MmbModel>)
    ensures
        forall|i: int|
            0 <= i < model_meshes(models).len() ==> well_formed_mesh(
                #[trigger] model_meshes(models)[i],
            ),
{
    let keep = |m: MmbModel| drawable(m);
    let kept = models.filter(keep);
    assert forall|i: int| 0 <= i < kept.len() implies well_formed_mesh(
        #[trigger] model_meshes(models)[i],
    ) by {
        models.lemma_filter_pred(keep, i);
        drawable_models_give_well_formed_meshes(kept[i]);
    }
}

/// A coordinate is sane where it is a number from minus ten thousand to ten
/// thousand.
pub proof fn sane_coordinates_are_within_ten_thousand(c: Scalar)
    ensures
        sane(c) <==> c.finite() && -0x461c_4000 <= c.ordinal() <= 0x461c_4000,
{
}

/// The corners of a whole triangle of a model are all among its vertices, as far
/// as sixteen bits count them.
pub open spec fn triangle_stays(m: MmbModel, t: int) -> bool {
    let limit = m.vertices@.len() as int % 0x1_0000;
    &&& m.indices@[3 * t] < limit
    &&& m.indices@[3 * t + 1] < limit
    &&& m.indices@[3 * t + 2] < limit
}

/// How many of the first triangles stay.
pub open spec fn triangles_staying(m: MmbModel, t: int) -> int
    decreases t,
{
    if t <= 0 {
        0
    } else {
        triangles_staying(m, t - 1) + if triangle_stays(m, t - 1) {
            1int
        } else {
            0int
        }
    }
}

proof fn lemma_triangles(m: MmbModel, n: nat, t: int)
    requires
        0 <= t < n,
    ensures
        ({
            let kept = kept_indices(m.indices@, n, vertex_limit(m));
            let place = triangles_staying(m, t);
            &&& kept.len() == 3 * triangles_staying(m, n as int)
            &&& 0 <= place
            &&& triangle_stays(m, t) ==> 3 * place + 3 <= kept.len() && kept[3 * place]
                == m.indices@[3 * t] && kept[3 * place + 1] == m.indices@[3 * t + 1] && kept[3
                * place + 2] == m.indices@[3 * t + 2]
        }),
    decreases n,
{
    let shorter = (n - 1) as nat;
    if n == 1 {
        assert(kept_indices(m.indices@, 0, vertex_limit(m)).len() == 0);
        assert(triangles_staying(m, 0) == 0);
    } else if t < n - 1 {
        lemma_triangles(m, shorter, t);
    } else {
        lemma_triangles(m, shorter, 0);
        assert(triangles_staying(m, t) >= 0);
    }
}

/// The mesh of a model keeps every whole triangle whose corners are among the
/// vertices, and no other, in their order: a triangle comes behind as many as
/// stay before it.
pub proof fn triangles_stay_whole_and_in_order(m: MmbModel, t: int)
    requires
        0 <= t < m.indices@.len() / 3,
    ensures
        ({
            let out = model_mesh(m).indices;
            let place = triangles_staying(m, t);
            &&& out.len() == 3 * triangles_staying(m, m.indices@.len() as int / 3)
            &&& triangle_stays(m, t) ==> 0 <= place && 3 * place + 2 < out.len() && out[3 * place]
                == m.indices@[3 * t] && out[3 * place + 1] == m.indices@[3 * t + 1] && out[3
                * place + 2] == m.indices@[3 * t + 2]
        }),
{
    lemma_triangles(m, m.indices@.len() / 3, t);
}

/// A model gives a mesh where it has vertices, all of them within ten thousand of
/// the origin on every axis, and some whole triangle with all corners among them.
pub proof fn models_with_a_triangle_are_drawable(m: MmbModel)
    ensures
        drawable(m) <==> {
            &&& m.vertices@.len() > 0
            &&& forall|i: int|
                0 <= i < m.vertices@.len() ==> {
                    let p = (#[trigger] m.vertices@[i]).pos;
                    &&& p.x.finite() && -0x461c_4000 <= p.x.ordinal() <= 0x461c_4000
                    &&& p.y.finite() && -0x461c_4000 <= p.y.ordinal() <= 0x461c_4000
                    &&& p.z.finite() && -0x461c_4000 <= p.z.ordinal() <= 0x461c_4000
                }
            &&& exists|t: int|
                0 <= t < m.indices@.len() / 3 && #[trigger] triangle_stays(m, t)
        },
{
    let n = m.indices@.len() as int / 3;
    if n > 0 {
        lemma_triangles(m, n as nat, 0);
        if exists|t: int| 0 <= t < n && #[trigger] triangle_stays(m, t) {
            let t = choose|t: int| 0 <= t < n && #[trigger] triangle_stays(m, t);
            lemma_triangles(m, n as nat, t);
        } else {
            lemma_none_staying(m, n);
        }
    }
    assert forall|i: int| 0 <= i < m.vertices@.len() implies (sane_point(
        (#[trigger] m.vertices@[i]).pos,
    ) <==> {
        let p = m.vertices@[i].pos;
        &&& p.x.finite() && -0x461c_4000 <= p.x.ordinal() <= 0x461c_4000
        &&& p.y.finite() && -0x461c_4000 <= p.y.ordinal() <= 0x461c_4000
        &&& p.z.finite() && -0x461c_4000 <= p.z.ordinal() <= 0x461c_4000
    }) by {
        let p = m.vertices@[i].pos;
        sane_coordinates_are_within_ten_thousand(p.x);
        sane_coordinates_are_within_ten_thousand(p.y);
        sane_coordinates_are_within_ten_thousand(p.z);
    }
}

proof fn lemma_none_staying(m: MmbModel, n: int)
    requires
        forall|t: int| 0 <= t < n ==> !(#[trigger] triangle_stays(m, t)),
    ensures
        triangles_staying(m, n) == 0,
    decreases n,
{
    if n > 0 {
        lemma_none_staying(m, n - 1);
    }
}

/// The mesh of a model takes every vertex as the model has it, and its texture
/// name and blending.
pub proof fn meshes_take_every_vertex_as_it_is(m: MmbModel, i: int)
    requires
        0 <= i < m.vertices@.len(),
    ensures
        ({
            let mesh = model_mesh(m);
            let v = m.vertices@[i];
            &&& mesh.positions.len() == m.vertices@.len() && mesh.positions[i] == v.pos
            &&& mesh.normals.len() == m.vertices@.len() && mesh.normals[i] == v.normal
            &&& mesh.uvs.len() == m.vertices@.len() && mesh.uvs[i] == v.uv
            &&& mesh.colors.len() == m.vertices@.len() && mesh.colors[i] == v.color
            &&& mesh.variant_name == m.texture_name@
            &&& mesh.blending == m.blending
        }),
{
}

/// What is made of the models of a file: a mesh of every drawable one, in their
/// order, each behind as many as are made of the models before it, and none
/// else. It has the vertices of its model one by one.
pub proof fn every_drawable_model_gives_its_mesh(models: Seq<MmbModel>, i: int)
    requires
        0 <= i < models.len(),
    ensures
        ({
            let gives = |m: MmbModel| drawable(m);
            let out = model_meshes(models);
            let place = count_kept(models, gives, i);
            let m = models[i];
            &&& out.len() == count_kept(models, gives, models.len() as int)
            &&& drawable(m) ==> {
                &&& 0 <= place < out.len()
                &&& out[place].variant_name == m.texture_name@
                &&& out[place].blending == m.blending
                &&& out[place].positions.len() == m.vertices@.len()
                &&& out[place].normals.len() == m.vertices@.len()
                &&& out[place].uvs.len() == m.vertices@.len()
                &&& out[place].colors.len() == m.vertices@.len()
                &&& forall|v: int|
                    #![trigger m.vertices@[v]]
                    0 <= v < m.vertices@.len() ==> {
                        &&& out[place].positions[v] == m.vertices@[v].pos
                        &&& out[place].normals[v] == m.vertices@[v].normal
                        &&& out[place].uvs[v] == m.vertices@[v].uv
                        &&& out[place].colors[v] == m.vertices@[v].color
                    }
                &&& out[place].indices == model_indices(m)
            }
        }),
{
    filtering_keeps_in_order(models, |m: MmbModel| drawable(m), i);
}

/// Checks that a chunk is in the file and holds a model.
pub fn check_mmb_chunk(chunks: &Vec<FileChunk>, chunk_idx: usize) -> (r: Result<(), LoadError>)
    ensures
        match r {
            Ok(()) => chunk_idx < chunks@.len() && chunks@[chunk_idx as int].kind == ChunkKind::Mmb,
            Err(LoadError::OutOfRange { chunks: n, chunk_idx: c }) => chunk_idx >= chunks@.len()
                && n == chunks@.len() && c == chunk_idx,
            Err(LoadError::NotMmb { chunk_idx: c }) => chunk_idx < chunks@.len()
                && chunks@[chunk_idx as int].kind != ChunkKind::Mmb && c == chunk_idx,
        },
{
    if chunk_idx >= chunks.len() {
        return Err(LoadError::OutOfRange { chunks: chunks.len(), chunk_idx });
    }
    if chunks[chunk_idx].kind == ChunkKind::Mmb {
        Ok(())
    } else {
        Err(LoadError::NotMmb { chunk_idx })
    }
}

/// What is said of a chunk that the file does not have.
pub open spec fn out_of_range_text(chunks: nat, chunk_idx: nat) -> Seq<char> {
    "file has "@ + decimal(chunks) + " chunks, idx "@ + decimal(chunk_idx) + " out of range"@
}

/// What is said of a chunk that the file does not have.
pub fn out_of_range_message(chunks: usize, chunk_idx: usize) -> (s: String)
    ensures
        s@ == out_of_range_text(chunks as nat, chunk_idx as nat),
        s@ == "file has "@ + decimal(chunks as nat) + " chunks, idx "@ + decimal(chunk_idx as nat)
            + " out of range"@,
{
    let mut s = "file has ".to_owned();
    s.append(decimal_text(chunks as u64).as_str());
    s.append(" chunks, idx ");
    s.append(decimal_text(chunk_idx as u64).as_str());
    s.append(" out of range");
    s
}

fn is_sane(c: Scalar) -> (b: bool)
    ensures
        b == sane(c),
{
    if c.bits >= SIGN_BIT {
        c.bits - SIGN_BIT <= COORD_SANE_LIMIT_BITS
    } else {
        c.bits <= COORD_SANE_LIMIT_BITS
    }
}

fn all_vertices_sane(vertices: &Vec<MmbVertex>) -> (b: bool)
    ensures
        b == (forall|i: int|
            0 <= i < vertices@.len() ==> sane_point((#[trigger] vertices@[i]).pos)),
{
    let mut i: usize = 0;
    while i < vertices.len()
        invariant
            i <= vertices.len(),
            forall|j: int| 0 <= j < i ==> sane_point((#[trigger] vertices@[j]).pos),
        decreases vertices.len() - i,
    {
        let p = vertices[i].pos;
        if !(is_sane(p.x) && is_sane(p.y) && is_sane(p.z)) {
            assert(!sane_point(vertices@[i as int].pos));
            return false;
        }
        i = i + 1;
    }
    true
}

fn triangle_indices(m: &MmbModel) -> (out: Vec<u32>)
    ensures
        out@ == model_indices(*m),
{
    let limit: usize = m.vertices.len() % 0x1_0000;
    let total: usize = m.indices.len();
    let triangles: usize = total / 3;
    let mut out: Vec<u32> = Vec::new();
    let mut t: usize = 0;
    while t < triangles
        invariant
            t <= triangles,
            total == m.indices@.len(),
            triangles == total / 3,
            limit == vertex_limit(*m),
            out@ == kept_indices(m.indices@, t as nat, limit as int),
        decreases triangles - t,
    {
        let a = m.indices[3 * t];
        let b = m.indices[3 * t + 1];
        let c = m.indices[3 * t + 2];
        let ghost before = out@;
        if (a as usize) < limit && (b as usize) < limit && (c as usize) < limit {
            out.push(a as u32);
            out.push(b as u32);
            out.push(c as u32);
            assert(out@ =~= before + seq![a as u32, b as u32, c as u32]);
        }
        t = t + 1;
    }
    out
}

fn model_submesh(m: &MmbModel) -> (r: Option<MmbSubMesh>)
    ensures
        match r {
            Some(s) => drawable(*m) && s@ == model_mesh(*m),
            None => !drawable(*m),
        },
        r matches Some(s) ==> {
            &&& s.positions@.len() == m.vertices@.len()
            &&& s.normals@.len() == m.vertices@.len()
            &&& s.uvs@.len() == m.vertices@.len()
            &&& s.colors@.len() == m.vertices@.len()
            &&& forall|v: int|
                #![trigger m.vertices@[v]]
                0 <= v < m.vertices@.len() ==> {
                    &&& s.positions@[v] == m.vertices@[v].pos
                    &&& s.normals@[v] == m.vertices@[v].normal
                    &&& s.uvs@[v] == m.vertices@[v].uv
                    &&& s.colors@[v] == m.vertices@[v].color
                }
        },
{
    if m.vertices.len() == 0 || m.indices.len() == 0 || !all_vertices_sane(&m.vertices) {
        return None;
    }
    let indices = triangle_indices(m);
    if indices.len() == 0 {
        return None;
    }
    let mut positions: Vec<Vec3> = Vec::new();
    let mut normals: Vec<Vec3> = Vec::new();
    let mut uvs: Vec<Vec2> = Vec::new();
    let mut colors: Vec<Vec4> = Vec::new();
    let mut i: usize = 0;
    while i < m.vertices.len()
        invariant
            i <= m.vertices.len(),
            positions@ =~= m.vertices@.take(i as int).map_values(|v: MmbVertex| v.pos),
            normals@ =~= m.vertices@.take(i as int).map_values(|v: MmbVertex| v.normal),
            uvs@ =~= m.vertices@.take(i as int).map_values(|v: MmbVertex| v.uv),
            colors@ =~= m.vertices@.take(i as int).map_values(|v: MmbVertex| v.color),
        decreases m.vertices.len() - i,
    {
        let v = m.vertices[i];
        positions.push(v.pos);
        normals.push(v.normal);
        uvs.push(v.uv);
        colors.push(v.color);
        i = i + 1;
    }
    assert(m.vertices@.take(i as int) =~= m.vertices@);
    let s = MmbSubMesh {
        variant_name: m.texture_name.clone(),
        positions,
        normals,
        uvs,
        colors,
        indices,
        blending: m.blending,
    };
    assert(s@ =~= model_mesh(*m));
    Some(s)
}

/// The mesh has the vertices of the model one by one, and its texture name and
/// blending.
pub open spec fn made_of(s: MmbSubMesh, m: MmbModel) -> bool {
    &&& s.variant_name@ == m.texture_name@
    &&& s.blending == m.blending
    &&& s.positions@.len() == m.vertices@.len()
    &&& s.normals@.len() == m.vertices@.len()
    &&& s.uvs@.len() == m.vertices@.len()
    &&& s.colors@.len() == m.vertices@.len()
    &&& forall|v: int|
        #![trigger m.vertices@[v]]
        0 <= v < m.vertices@.len() ==> {
            &&& s.positions@[v] == m.vertices@[v].pos
            &&& s.normals@[v] == m.vertices@[v].normal
            &&& s.uvs@[v] == m.vertices@[v].uv
            &&& s.colors@[v] == m.vertices@[v].color
        }
}

proof fn lemma_made_of_models(models: Seq<MmbModel>, out: Seq<MmbSubMesh>)
    requires
        mesh_data(out) == model_meshes(models),
    ensures
        out.len() == count_kept(models, |m: MmbModel| drawable(m), models.len() as int),
        forall|i: int|
            0 <= i < models.len() && drawable(#[trigger] models[i]) ==> made_of(
                out[count_kept(models, |m: MmbModel| drawable(m), i)],
                models[i],
            ),
{
    let gives = |m: MmbModel| drawable(m);
    assert(out.len() == mesh_data(out).len());
    filtering_keeps_in_order(models, gives, 0);
    assert forall|i: int| 0 <= i < models.len() && drawable(#[trigger] models[i]) implies made_of(
        out[count_kept(models, gives, i)],
        models[i],
    ) by {
        every_drawable_model_gives_its_mesh(models, i);
        let place = count_kept(models, gives, i);
        assert(mesh_data(out)[place] == out[place]@);
    }
}

/// The meshes of the models that give one, in their order.
pub fn build_submeshes(models: &Vec<MmbModel>) -> (out: Vec<MmbSubMesh>)
    ensures
        mesh_data(out@) == model_meshes(models@),
        out@.len() == count_kept(models@, |m: MmbModel| drawable(m), models@.len() as int),
        forall|i: int|
            0 <= i < models@.len() && drawable(#[trigger] models@[i]) ==> made_of(
                out@[count_kept(models@, |m: MmbModel| drawable(m), i)],
                models@[i],
            ),
{
    let mut out: Vec<MmbSubMesh> = Vec::new();
    let mut i: usize = 0;
    let ghost keep = |m: MmbModel| drawable(m);
    assert(mesh_data(out@) =~= model_meshes(models@.take(0)));
    while i < models.len()
        invariant
            i <= models.len(),
            keep == (|m: MmbModel| drawable(m)),
            mesh_data(out@) == model_meshes(models@.take(i as int)),
        decreases models.len() - i,
    {
        let ghost before = out@;
        proof {
            assert(models@.take(i as int + 1).drop_last() =~= models@.take(i as int));
            reveal(Seq::filter);
        }
        if let Some(s) = model_submesh(&models[i]) {
            out.push(s);
            assert(mesh_data(out@) =~= mesh_data(before).push(s@));
            assert(model_meshes(models@.take(i as int + 1)) =~= model_meshes(
                models@.take(i as int),
            ).push(model_mesh(models@[i as int])));
        }
        i = i + 1;
    }
    assert(models@.take(models@.len() as int) =~= models@);
    proof {
        lemma_made_of_models(models@, out@);
    }
    out
}

/// Puts together what was loaded of a chunk: the meshes of its models, the
/// textures of its file, and its names.
pub fn load_mmb(
    models: &Vec<MmbModel>,
    textures: Arc<Vec<NamedTexture>>,
    asset_name: &str,
    zone_mesh_name: String,
) -> (r: LoadedMmb)
    ensures
        mesh_data(r.submeshes@) == model_meshes(models@),
        r.submeshes@.len() == count_kept(models@, |m: MmbModel| drawable(m), models@.len() as int),
        forall|i: int|
            0 <= i < models@.len() && drawable(#[trigger] models@[i]) ==> made_of(
                r.submeshes@[count_kept(models@, |m: MmbModel| drawable(m), i)],
                models@[i],
            ),
        r.textures == textures,
        r.asset_name@ == trimmed(asset_name@),
        r.zone_mesh_name@ == zone_mesh_name@,
{
    LoadedMmb {
        submeshes: build_submeshes(models),
        textures,
        asset_name: trim(asset_name).to_owned(),
        zone_mesh_name,
    }
}

/// A texture with its name.
#[verifier::ext_equal]
pub struct TextureData {
    pub name: Seq<char>,
    pub width: u32,
    pub height: u32,
    pub rgba: Seq<u8>,
}

impl View for NamedTexture {
    type V = TextureData;

    open spec fn view(&self) -> TextureData {
        TextureData {
            name: self.name@,
            width: self.texture.width,
            height: self.texture.height,
            rgba: self.texture.rgba@,
        }
    }
}

pub open spec fn texture_data(textures: Seq<NamedTexture>) -> Seq<TextureData> {
    textures.map_values(|t: NamedTexture| t@)
}

/// The chunk is an image that could be decoded.
pub open spec fn holds_texture(c: FileChunk) -> bool {
    c.kind == ChunkKind::Img && c.texture is Some
}

/// The texture of a chunk, under its name, or under none.
pub open spec fn chunk_texture(c: FileChunk) -> TextureData {
    TextureData {
        name: match c.texture_name {
            Some(name) => name@,
            None => Seq::empty(),
        },
        width: c.texture->0.width,
        height: c.texture->0.height,
        rgba: c.texture->0.rgba@,
    }
}

/// The textures of a file, in the order of its chunks.
pub open spec fn chunk_textures(chunks: Seq<FileChunk>) -> Seq<TextureData> {
    chunks.filter(|c: FileChunk| holds_texture(c)).map_values(|c: FileChunk| chunk_texture(c))
}

/// The textures of a file are those of its image chunks that could be decoded,
/// all of them, in the order of the chunks, each as it was decoded and under the
/// name that its chunk has, or under none.
pub proof fn every_decoded_image_is_in_the_set(chunks: Seq<FileChunk>, i: int)
    requires
        0 <= i < chunks.len(),
    ensures
        ({
            let decoded = |c: FileChunk| c.kind == ChunkKind::Img && c.texture is Some;
            let out = chunk_textures(chunks);
            let place = count_kept(chunks, decoded, i);
            let c = chunks[i];
            &&& out.len() == count_kept(chunks, decoded, chunks.len() as int)
            &&& c.kind == ChunkKind::Img && c.texture is Some ==> {
                &&& 0 <= place < out.len()
                &&& out[place].width == c.texture->0.width
                &&& out[place].height == c.texture->0.height
                &&& out[place].rgba == c.texture->0.rgba@
                &&& c.texture_name matches Some(name) ==> out[place].name == name@
                &&& c.texture_name is None ==> out[place].name.len() == 0
            }
        }),
{
    let keep = |c: FileChunk| holds_texture(c);
    let decoded = |c: FileChunk| c.kind == ChunkKind::Img && c.texture is Some;
    assert(keep =~= decoded);
    filtering_keeps_in_order(chunks, keep, i);
}

/// The textures of a file: its image chunks that could be decoded.
pub fn texture_set(chunks: Vec<FileChunk>) -> (out: Vec<NamedTexture>)
    ensures
        texture_data(out@) == chunk_textures(chunks@),
{
    let mut out: Vec<NamedTexture> = Vec::new();
    let ghost all = chunks@;
    let ghost keep = |c: FileChunk| holds_texture(c);
    assert(texture_data(out@) =~= chunk_textures(all.take(0)));
    for c in it: chunks
        invariant
            it.seq() == all,
            keep == (|c: FileChunk| holds_texture(c)),
            texture_data(out@) == chunk_textures(all.take(it.index())),
    {
        let ghost before = out@;
        proof {
            assert(all.take(it.index() + 1).drop_last() =~= all.take(it.index()));
            reveal(Seq::filter);
        }
        if c.kind == ChunkKind::Img {
            if let Some(texture) = c.texture {
                let name = match c.texture_name {
                    Some(name) => name,
                    None => String::new(),
                };
                let named = NamedTexture { name, texture };
                out.push(named);
                assert(texture_data(out@) =~= texture_data(before).push(named@));
                assert(named@ =~= chunk_texture(all[it.index()]));
                assert(chunk_textures(all.take(it.index() + 1)) =~= chunk_textures(
                    all.take(it.index()),
                ).push(named@));
            }
        }
    }
    assert(all.take(all.len() as int) =~= all);
    out
}

/// One set of textures for each file, decoded once and shared by all chunks of
/// the file.
pub struct TextureBank {
    pub sets: HashMap<u32, Arc<Vec<NamedTexture>>>,
}

impl TextureBank {
    pub fn new() -> (b: TextureBank)
        ensures
            b.sets@ == Map::<u32, Arc<Vec<NamedTexture>>>::empty(),
    {
        TextureBank { sets: HashMap::new() }
    }

    pub fn contains(&self, file_id: u32) -> (b: bool)
        ensures
            b == self.sets@.contains_key(file_id),
    {
        self.sets.contains_key(&file_id)
    }

    /// The set of a file, where it has been decoded.
    pub fn get(&self, file_id: u32) -> (r: Option<Arc<Vec<NamedTexture>>>)
        ensures
            r == (if self.sets@.contains_key(file_id) {
                Some(self.sets@[file_id])
            } else {
                None
            }),
    {
        match self.sets.get(&file_id) {
            Some(set) => Some(set.clone()),
            None => None,
        }
    }

    /// The set of a file: the one that is there, or else the given one, which
    /// is there from now on.
    pub fn shared_set(&mut self, file_id: u32, set: Arc<Vec<NamedTexture>>) -> (r: Arc<
        Vec<NamedTexture>,
    >)
        ensures
            r == (if old(self).sets@.contains_key(file_id) {
                old(self).sets@[file_id]
            } else {
                set
            }),
            final(self).sets@ == old(self).sets@.insert(file_id, r),
    {
        match self.get(file_id) {
            Some(shared) => {
                assert(self.sets@ =~= old(self).sets@.insert(file_id, shared));
                shared
            },
            None => {
                let shared = set.clone();
                self.sets.insert(file_id, set);
                shared
            },
        }
    }
}

/// Drops the set of a file.
pub fn drop_mmb_file_textures(bank: &mut TextureBank, file_id: u32)
    ensures
        final(bank).sets@ == old(bank).sets@.remove(file_id),
{
    bank.sets.remove(&file_id);
}

/// Drops the sets of all files.
pub fn clear_mmb_file_textures(bank: &mut TextureBank)
    ensures
        final(bank).sets@ == Map::<u32, Arc<Vec<NamedTexture>>>::empty(),
{
    bank.sets.clear();
}

} // verus!
