//! Requests to place a model, and the queue in which they wait.
use crate::geometry::{Mat4, Vec2, Vec3, Vec4};
use crate::scalar::{Scalar, MINUS_ONE_BITS};
use std::collections::VecDeque;
use vstd::prelude::*;

verus! {

/// The movement, in yalms, below which the order of the queue cannot
/// meaningfully change. A distance squared compares with its square, which is
/// the same number.
pub const MMB_REEVAL_MOVE_YALMS_BITS: u32 = 0x3f80_0000;

/// The link of a placement that is not the shell of an interior.
pub const NO_SUB_AREA_LINK: u32 = 0;

/// A water sheet that a generator drives, with a tint and a scroll of its own.
#[derive(Clone, Copy, PartialEq, Eq, Debug, Structural)]
pub struct GenWater {
    pub tint: Vec4,
    pub uv_scroll: Vec2,
    /// The box around the transformed sheet.
    pub world_min: Vec3,
    pub world_max: Vec3,
}

/// A request to place one model.
#[derive(Clone, Copy, PartialEq, Eq, Debug, Structural)]
pub struct LoadMmbRequest {
    pub file_id: u32,
    pub chunk_idx: usize,
    pub world_pos: Vec3,
    pub entity_id: Option<u32>,
    pub world_transform: Option<Mat4>,
    pub water: Option<GenWater>,
    /// The level of detail, by the number under which the caller keeps it.
    pub lod: Option<u32>,
    /// The door leaf, by the number under which the caller keeps it.
    pub door: Option<u32>,
    /// The zone block that the placement belongs to.
    pub slot: u8,
    /// The interior whose shell this is, or `NO_SUB_AREA_LINK`.
    pub sub_area_link: u32,
}

/// The request that placed a model of the zone, kept with it so that it can be
/// queued again.
#[derive(Clone, Copy, PartialEq, Eq, Debug, Structural)]
pub struct ZonePlacementRef(pub LoadMmbRequest);

impl LoadMmbRequest {
    /// Part of the zone: attached to no entity, and placed by a transform.
    pub open spec fn zone_placement(self) -> bool {
        self.entity_id is None && self.world_transform is Some
    }

    /// Where the model goes.
    pub open spec fn target(self) -> Vec3 {
        match self.world_transform {
            Some(m) => m.moves_origin_to(),
            None => self.world_pos,
        }
    }

    /// The number that the queue sorts by: models of entities come before all
    /// others, and parts of the zone by their distance.
    pub open spec fn order_key(self, distance_squared: Scalar) -> Scalar {
        if self.zone_placement() {
            distance_squared
        } else {
            Scalar { bits: MINUS_ONE_BITS }
        }
    }
}

/// Whether the request is for a part of the zone.
pub fn is_zone_placement(req: &LoadMmbRequest) -> (b: bool)
    ensures
        b == req.zone_placement(),
        b <==> req.entity_id is None && req.world_transform is Some,
{
    req.entity_id.is_none() && req.world_transform.is_some()
}

/// The point from which the distance of a request is measured.
pub fn placement_position(req: &LoadMmbRequest) -> (p: Vec3)
    ensures
        p == req.target(),
        req.world_transform is None ==> p == req.world_pos,
        req.world_transform matches Some(m) ==> p.x == m.w_axis.x && p.y == m.w_axis.y && p.z
            == m.w_axis.z,
{
    match req.world_transform {
        Some(m) => m.translation(),
        None => req.world_pos,
    }
}

/// The number that the queue sorts by, from the square of the distance
/// measured on the ground.
pub fn mmb_load_order_key(req: &LoadMmbRequest, distance_squared: Scalar) -> (k: Scalar)
    ensures
        k == req.order_key(distance_squared),
        req.entity_id is None && req.world_transform is Some ==> k == distance_squared,
        req.entity_id is Some || req.world_transform is None ==> k.bits == 0xbf80_0000,
{
    if is_zone_placement(req) {
        distance_squared
    } else {
        Scalar { bits: MINUS_ONE_BITS }
    }
}

/// A part of the zone is what is attached to no entity and placed by a transform.
/// It goes where the transform moves the origin and sorts by its distance. All
/// else sorts by minus one, and without a transform goes where the request says.
pub proof fn requests_go_where_they_say(req: LoadMmbRequest, d: Scalar)
    ensures
        req.zone_placement() <==> req.entity_id is None && req.world_transform is Some,
        req.world_transform is None ==> req.target() == req.world_pos,
        req.world_transform matches Some(m) ==> req.target().x == m.w_axis.x && req.target().y
            == m.w_axis.y && req.target().z == m.w_axis.z,
        req.entity_id is None && req.world_transform is Some ==> req.order_key(d) == d,
        req.entity_id is Some || req.world_transform is None ==> req.order_key(d).bits
            == 0xbf80_0000,
{
}

/// A model of an entity sorts ahead of every part of the zone.
pub proof fn entity_models_come_first(
    entity: LoadMmbRequest,
    placement: LoadMmbRequest,
    d: Scalar,
    e: Scalar,
)
    requires
        !entity.zone_placement(),
        placement.zone_placement(),
        !e.negative(),
    ensures
        entity.order_key(d).total() < placement.order_key(e).total(),
{
}

/// Of two parts of the zone the nearer one sorts first.
pub proof fn nearer_placement_comes_first(
    near: LoadMmbRequest,
    far: LoadMmbRequest,
    d: Scalar,
    e: Scalar,
)
    requires
        near.zone_placement(),
        far.zone_placement(),
        e.exceeds(d),
    ensures
        near.order_key(d).total() < far.order_key(e).total(),
{
}

/// The reference point is not where it was: it appeared, went away, or moved
/// by more than the deadband.
pub open spec fn reference_moved(
    last: Option<Vec3>,
    now: Option<Vec3>,
    distance_squared: Scalar,
) -> bool {
    match (last, now) {
        (Some(_), Some(_)) => distance_squared.exceeds(
            Scalar { bits: MMB_REEVAL_MOVE_YALMS_BITS },
        ),
        (None, None) => false,
        _ => true,
    }
}

/// The reference point counts as moved where it was known before and is not now, or
/// the other way round, and where the square of the distance is a number above
/// one. Without a point before and now it does not.
pub proof fn the_reference_moves_beyond_a_yalm(
    last: Option<Vec3>,
    now: Option<Vec3>,
    distance_squared: Scalar,
)
    ensures
        last is Some && now is Some ==> (reference_moved(last, now, distance_squared) <==> {
            &&& !distance_squared.nan()
            &&& distance_squared.ordinal() > 0x3f80_0000
        }),
        last is None && now is None ==> !reference_moved(last, now, distance_squared),
        last is Some != now is Some ==> reference_moved(last, now, distance_squared),
{
}

/// Whether the queue has to be gone through again. `distance_squared` is the
/// square of the distance between the two points, where both are known.
pub fn mmb_repass_needed(
    new_events: bool,
    parse_completed: bool,
    budget_deferred: bool,
    settings_changed: bool,
    last_eval_pos: Option<Vec3>,
    self_pos: Option<Vec3>,
    distance_squared: Scalar,
) -> (b: bool)
    ensures
        b == (new_events || parse_completed || budget_deferred || settings_changed
            || reference_moved(last_eval_pos, self_pos, distance_squared)),
        new_events || parse_completed || budget_deferred || settings_changed ==> b,
        last_eval_pos is Some != self_pos is Some ==> b,
        last_eval_pos is Some && self_pos is Some && !distance_squared.nan()
            && distance_squared.ordinal() > 0x3f80_0000 ==> b,
{
    if new_events || parse_completed || budget_deferred || settings_changed {
        return true;
    }
    match (last_eval_pos, self_pos) {
        (Some(_), Some(_)) => distance_squared.gt(Scalar { bits: MMB_REEVAL_MOVE_YALMS_BITS }),
        (None, None) => false,
        _ => true,
    }
}

/// The requests that wait, and what the last pass over them saw.
pub struct MmbLoadQueue {
    pub pending: VecDeque<LoadMmbRequest>,
    pub last_eval_pos: Option<Vec3>,
    pub budget_deferred: bool,
}

impl Default for MmbLoadQueue {
    fn default() -> (q: MmbLoadQueue)
        ensures
            q.pending@ == Seq::<LoadMmbRequest>::empty(),
            q.last_eval_pos is None,
            !q.budget_deferred,
    {
        MmbLoadQueue { pending: VecDeque::new(), last_eval_pos: None, budget_deferred: false }
    }
}

impl MmbLoadQueue {
    /// Appends requests, and says whether there were any.
    pub fn enqueue(&mut self, requests: &Vec<LoadMmbRequest>) -> (any: bool)
        ensures
            any == (requests@.len() > 0),
            final(self).pending@ == old(self).pending@ + requests@,
            final(self).last_eval_pos == old(self).last_eval_pos,
            final(self).budget_deferred == old(self).budget_deferred,
    {
        let mut i: usize = 0;
        while i < requests.len()
            invariant
                i <= requests.len(),
                self.pending@ == old(self).pending@ + requests@.take(i as int),
                self.last_eval_pos == old(self).last_eval_pos,
                self.budget_deferred == old(self).budget_deferred,
            decreases requests.len() - i,
        {
            self.pending.push_back(requests[i]);
            assert(requests@.take(i as int + 1) == requests@.take(i as int).push(requests@[i as int]));
            i = i + 1;
        }
        assert(requests@.take(requests@.len() as int) == requests@);
        requests.len() > 0
    }

    /// Decides whether to go through the queue now. Where it does, the point
    /// is kept, and a pass that ran out of budget counts as made up for.
    pub fn begin_pass(
        &mut self,
        new_events: bool,
        parse_completed: bool,
        settings_changed: bool,
        self_pos: Option<Vec3>,
        distance_squared: Scalar,
    ) -> (go: bool)
        ensures
            final(self).pending@ == old(self).pending@,
            go == (old(self).pending@.len() > 0 && (new_events || parse_completed || old(
                self,
            ).budget_deferred || settings_changed || reference_moved(
                old(self).last_eval_pos,
                self_pos,
                distance_squared,
            ))),
            final(self).last_eval_pos == (if go {
                self_pos
            } else {
                old(self).last_eval_pos
            }),
            final(self).budget_deferred == (old(self).budget_deferred && !go),
            old(self).pending@.len() == 0 ==> !go,
            old(self).pending@.len() > 0 && (new_events || parse_completed || settings_changed
                || old(self).budget_deferred) ==> go,
            old(self).pending@.len() > 0 && (old(self).last_eval_pos is Some != self_pos is Some)
                ==> go,
            go ==> final(self).last_eval_pos == self_pos && !final(self).budget_deferred,
    {
        if self.pending.len() == 0 {
            return false;
        }
        if !mmb_repass_needed(
            new_events,
            parse_completed,
            self.budget_deferred,
            settings_changed,
            self.last_eval_pos,
            self_pos,
            distance_squared,
        ) {
            return false;
        }
        self.last_eval_pos = self_pos;
        self.budget_deferred = false;
        true
    }
}

} // verus!
