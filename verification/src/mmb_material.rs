//! How a mesh is drawn: its alpha mode, its texture, and the state of the
//! pipeline.
use crate::geometry::Vec4;
use crate::mmb_cache::{chosen_place, TexturePool};
use crate::mmb_request::GenWater;
use crate::scalar::{Scalar, ONE_BITS, ZERO_BITS};
use crate::text::{starts_with_char, trim, trimmed};
use vstd::prelude::*;

verus! {

/// The alpha below which a cutout discards: three eighths.
pub const CUTOUT_THRESHOLD_BITS: u32 = 0x3ec0_0000;

/// The flag of a blending word that marks translucency.
pub const BLEND_FLAG: u16 = 0x8000;

#[derive(Clone, Copy, PartialEq, Eq, Debug, Structural)]
pub enum AlphaMode {
    Opaque,
    /// Discards what is below the threshold.
    Mask(Scalar),
    Blend,
}

/// What the blending word of a mesh says of the pipeline.
#[derive(Clone, Copy, PartialEq, Eq, Debug, Structural)]
pub struct RenderState {
    pub back_face_culling: bool,
    pub z_bias_level: i32,
    pub depth_write: bool,
}

/// The state of the pipeline that draws a mesh.
#[derive(Clone, Copy, PartialEq, Eq, Debug, Structural)]
pub struct MaterialKey {
    pub back_face_culling: bool,
    pub mirrored: bool,
    pub z_bias_level: i32,
    pub depth_write: bool,
    pub generator_stage_chain: bool,
}

/// The material of a mesh.
#[derive(Clone, Copy, PartialEq, Eq, Debug, Structural)]
pub struct MaterialPlan {
    pub alpha_mode: AlphaMode,
    pub textured: bool,
    pub blended: bool,
    pub discard_threshold: Scalar,
    pub tint: Vec4,
    pub key: MaterialKey,
    /// Whether placements of the mesh share the material.
    pub shared: bool,
}

pub open spec fn zero() -> Scalar {
    Scalar { bits: ZERO_BITS }
}

pub open spec fn white() -> Vec4 {
    let one = Scalar { bits: ONE_BITS };
    Vec4 { x: one, y: one, z: one, w: one }
}

/// The name makes the model a cutout.
pub open spec fn cutout_name(zone_mesh_name: Seq<char>) -> bool {
    zone_mesh_name.len() > 0 && zone_mesh_name[0] == '_'
}

/// The alpha mode of a mesh. Without a texture it is opaque. A cutout is
/// masked. A mesh whose flag marks it is translucent, and all others are opaque:
/// what the texture holds never decides.
pub open spec fn alpha_mode_of(
    zone_mesh_name: Seq<char>,
    blending: u16,
    has_texture: bool,
) -> AlphaMode {
    if !has_texture {
        AlphaMode::Opaque
    } else if cutout_name(zone_mesh_name) {
        AlphaMode::Mask(Scalar { bits: CUTOUT_THRESHOLD_BITS })
    } else if blending >= BLEND_FLAG {
        AlphaMode::Blend
    } else {
        AlphaMode::Opaque
    }
}

/// The threshold that goes with an alpha mode: nothing is discarded but by a
/// mask.
pub open spec fn discard_threshold_of(mode: AlphaMode) -> Scalar {
    match mode {
        AlphaMode::Mask(t) => t,
        _ => zero(),
    }
}

/// The alpha mode of a mesh, and the threshold below which it discards.
pub fn submesh_alpha_mode(zone_mesh_name: &str, blending: u16, has_texture: bool) -> (r: (
    AlphaMode,
    Scalar,
))
    ensures
        r.0 == alpha_mode_of(zone_mesh_name@, blending, has_texture),
        r.1 == discard_threshold_of(r.0),
        (r.0 is Mask) <==> has_texture && zone_mesh_name@.len() > 0 && zone_mesh_name@[0] == '_',
        (r.0 is Blend) <==> has_texture && r.0 !is Mask && blending & 0x8000 != 0,
        r.0 matches AlphaMode::Mask(t) ==> t == r.1,
        r.1.bits == if r.0 is Mask {
            0x3ec0_0000u32
        } else {
            0
        },
{
    proof {
        blend_flag_is_the_top_bit(blending);
    }
    if !has_texture {
        (AlphaMode::Opaque, Scalar { bits: ZERO_BITS })
    } else if starts_with_char(zone_mesh_name, '_') {
        let t = Scalar { bits: CUTOUT_THRESHOLD_BITS };
        (AlphaMode::Mask(t), t)
    } else if blending >= BLEND_FLAG {
        (AlphaMode::Blend, Scalar { bits: ZERO_BITS })
    } else {
        (AlphaMode::Opaque, Scalar { bits: ZERO_BITS })
    }
}

/// A word is at least the translucency flag exactly where it has the flag.
pub proof fn blend_flag_is_the_top_bit(blending: u16)
    ensures
        blending >= BLEND_FLAG <==> blending & BLEND_FLAG != 0,
{
    assert(blending >= 0x8000u16 <==> blending & 0x8000u16 != 0) by (bit_vector);
}

/// The material of a mesh of the zone, and of a sheet of water. Water is always
/// translucent, takes its tint from the generator, and has a material of its
/// own; it is no decal, so nothing pulls it towards the camera.
pub open spec fn material_of(
    zone_mesh_name: Seq<char>,
    blending: u16,
    has_texture: bool,
    mirrored: bool,
    state: RenderState,
    water: Option<GenWater>,
) -> MaterialPlan {
    match water {
        Some(w) => MaterialPlan {
            alpha_mode: AlphaMode::Blend,
            textured: has_texture,
            blended: true,
            discard_threshold: zero(),
            tint: w.tint,
            key: MaterialKey {
                back_face_culling: false,
                mirrored,
                z_bias_level: 0,
                depth_write: false,
                generator_stage_chain: true,
            },
            shared: false,
        },
        None => {
            let mode = alpha_mode_of(zone_mesh_name, blending, has_texture);
            MaterialPlan {
                alpha_mode: mode,
                textured: has_texture,
                blended: mode == AlphaMode::Blend,
                discard_threshold: discard_threshold_of(mode),
                tint: white(),
                key: MaterialKey {
                    back_face_culling: state.back_face_culling,
                    mirrored,
                    z_bias_level: state.z_bias_level,
                    depth_write: state.depth_write,
                    generator_stage_chain: false,
                },
                shared: true,
            }
        },
    }
}

/// Whatever is drawn, the pipeline knows on which side of it the placement turned
/// the winding. A mesh of the zone is drawn with the state that its blending word
/// says; a sheet of water is drawn with its own, and with the tint of its
/// generator.
pub proof fn materials_follow_their_placement(
    zone_mesh_name: Seq<char>,
    blending: u16,
    has_texture: bool,
    mirrored: bool,
    state: RenderState,
    water: Option<GenWater>,
)
    ensures
        ({
            let p = material_of(zone_mesh_name, blending, has_texture, mirrored, state, water);
            &&& p.key.mirrored == mirrored
            &&& p.textured == has_texture
            &&& water is None ==> {
                &&& p.key.back_face_culling == state.back_face_culling
                &&& p.key.z_bias_level == state.z_bias_level
                &&& p.key.depth_write == state.depth_write
                &&& !p.key.generator_stage_chain
                &&& p.shared
            }
            &&& water matches Some(w) ==> {
                &&& p.alpha_mode is Blend
                &&& p.tint == w.tint
                &&& p.key.generator_stage_chain
                &&& !p.key.back_face_culling
                &&& !p.key.depth_write
                &&& p.key.z_bias_level == 0
                &&& !p.shared
            }
            &&& p.blended <==> p.alpha_mode is Blend
        }),
{
}

/// The alpha mode goes by the texture, the name and one flag alone. A mesh
/// without a texture is opaque. One whose name starts with an underscore is
/// masked at three eighths. Of the others those with the flag are translucent.
pub proof fn alpha_modes_go_by_name_and_flag(
    zone_mesh_name: Seq<char>,
    blending: u16,
    has_texture: bool,
)
    ensures
        ({
            let mode = alpha_mode_of(zone_mesh_name, blending, has_texture);
            let masked = has_texture && zone_mesh_name.len() > 0 && zone_mesh_name[0] == '_';
            &&& mode is Mask <==> masked
            &&& mode matches AlphaMode::Mask(t) ==> t.bits == 0x3ec0_0000
            &&& mode is Blend <==> has_texture && !masked && blending & 0x8000 != 0
            &&& mode matches AlphaMode::Mask(t) ==> discard_threshold_of(mode) == t
            &&& mode !is Mask ==> discard_threshold_of(mode).bits == 0
        }),
{
    blend_flag_is_the_top_bit(blending);
}

/// A placement turns the winding around where its determinant is a number below
/// zero, and only there. One without a transform does not.
pub proof fn negative_determinants_mirror(determinant: Option<Scalar>)
    ensures
        mirroring(determinant) <==> (determinant matches Some(d) && !d.nan() && d.ordinal() < 0),
{
}

/// The material of a mesh.
pub fn plan_material(
    zone_mesh_name: &str,
    blending: u16,
    has_texture: bool,
    mirrored: bool,
    state: RenderState,
    water: Option<GenWater>,
) -> (p: MaterialPlan)
    ensures
        p == material_of(zone_mesh_name@, blending, has_texture, mirrored, state, water),
        p.textured == has_texture,
        p.key.mirrored == mirrored,
        p.blended == (p.alpha_mode is Blend),
        p.alpha_mode !is Mask ==> p.discard_threshold.bits == 0,
        p.alpha_mode matches AlphaMode::Mask(t) ==> p.discard_threshold == t,
        match water {
            Some(w) => {
                &&& p.alpha_mode is Blend
                &&& p.tint == w.tint
                &&& p.key.generator_stage_chain
                &&& !p.key.back_face_culling
                &&& !p.key.depth_write
                &&& p.key.z_bias_level == 0
                &&& !p.shared
            },
            None => {
                &&& (p.alpha_mode is Mask) <==> has_texture && zone_mesh_name@.len() > 0
                    && zone_mesh_name@[0] == '_'
                &&& (p.alpha_mode is Blend) <==> has_texture && p.alpha_mode !is Mask && blending
                    & 0x8000 != 0
                &&& p.tint.x.bits == 0x3f80_0000
                &&& p.tint.y.bits == 0x3f80_0000
                &&& p.tint.z.bits == 0x3f80_0000
                &&& p.tint.w.bits == 0x3f80_0000
                &&& !p.key.generator_stage_chain
                &&& p.key.back_face_culling == state.back_face_culling
                &&& p.key.z_bias_level == state.z_bias_level
                &&& p.key.depth_write == state.depth_write
                &&& p.shared
            },
        },
{
    if let Some(w) = water {
        return MaterialPlan {
            alpha_mode: AlphaMode::Blend,
            textured: has_texture,
            blended: true,
            discard_threshold: Scalar { bits: ZERO_BITS },
            tint: w.tint,
            key: MaterialKey {
                back_face_culling: false,
                mirrored,
                z_bias_level: 0,
                depth_write: false,
                generator_stage_chain: true,
            },
            shared: false,
        };
    }
    let (mode, threshold) = submesh_alpha_mode(zone_mesh_name, blending, has_texture);
    let one = Scalar { bits: ONE_BITS };
    MaterialPlan {
        alpha_mode: mode,
        textured: has_texture,
        blended: match mode {
            AlphaMode::Blend => true,
            _ => false,
        },
        discard_threshold: threshold,
        tint: Vec4 { x: one, y: one, z: one, w: one },
        key: MaterialKey {
            back_face_culling: state.back_face_culling,
            mirrored,
            z_bias_level: state.z_bias_level,
            depth_write: state.depth_write,
            generator_stage_chain: false,
        },
        shared: true,
    }
}

/// A transform with this determinant turns the winding of a mesh around.
pub open spec fn mirroring(determinant: Option<Scalar>) -> bool {
    match determinant {
        Some(d) => zero().exceeds(d),
        None => false,
    }
}

/// A placement is mirrored where it has a transform whose determinant is
/// negative.
pub fn is_mirrored(determinant: Option<Scalar>) -> (b: bool)
    ensures
        b == mirroring(determinant),
        determinant is None ==> !b,
        determinant matches Some(d) ==> (b <==> !d.nan() && d.ordinal() < 0),
{
    match determinant {
        Some(d) => Scalar { bits: ZERO_BITS }.gt(d),
        None => false,
    }
}

/// The texture of a mesh, by the name of its variant without white space at
/// either end.
pub fn submesh_texture<'a, H>(pool: &'a TexturePool<H>, variant_name: &str) -> (r: Option<&'a H>)
    requires
        pool.wf(),
    ensures
        match r {
            Some(h) => chosen_place(pool.places(), pool.handles@.len(), trimmed(variant_name@)) is Some
                && Some(*h) == pool.handles@[chosen_place(
                pool.places(),
                pool.handles@.len(),
                trimmed(variant_name@),
            )->0],
            None => chosen_place(
                pool.places(),
                pool.handles@.len(),
                trimmed(variant_name@),
            ) is None,
        },
{
    pool.texture_for(trim(variant_name))
}

} // verus!
