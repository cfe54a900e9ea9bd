//! Retiring parts of the zone that fell far behind: they are queued again, and
//! what was kept for them alone is dropped.
use crate::asset_map::AssetMap;
use crate::geometry::Vec3;
use crate::kept::{count_kept, filtering_keeps_in_order};
use crate::mmb_cache::{MmbHandleCache, MmbLoadInFlight, MmbParseCache, MmbTexPools};
use crate::mmb_load::{drop_mmb_file_textures, TextureBank};
use crate::mmb_pass::QueuedRequest;
use crate::mmb_request::{LoadMmbRequest, MmbLoadQueue, MMB_REEVAL_MOVE_YALMS_BITS};
use crate::scalar::Scalar;
use std::collections::HashSet;
use vstd::prelude::*;

verus! {

broadcast use vstd::std_specs::hash::group_hash_axioms;

/// How many times the radius a part of the zone has to be away before it is
/// retired: one and a half, so that the edge of the radius does not matter.
pub const RETIRE_MARGIN_BITS: u32 = 0x3fc0_0000;

/// A part of the zone that is placed, with the square of its distance on the
/// ground.
#[derive(Clone, Copy, PartialEq, Eq, Debug, Structural)]
pub struct ZonePlacement {
    pub entity: u64,
    pub request: LoadMmbRequest,
    pub slot: u8,
    pub distance_squared: Scalar,
}

/// Whether a part of the zone at a distance is beyond the radius of retirement,
/// both squared.
pub fn zone_placement_should_retire(
    distance_squared: Scalar,
    retire_radius_squared: Scalar,
) -> (b: bool)
    ensures
        b == distance_squared.exceeds(retire_radius_squared),
        b <==> !distance_squared.nan() && !retire_radius_squared.nan() && distance_squared.ordinal()
            > retire_radius_squared.ordinal(),
{
    distance_squared.gt(retire_radius_squared)
}

/// Decides whether to look for parts to retire: there is a point to measure
/// from, and it moved, is new, or the settings changed. The point is kept.
pub fn retire_scan_needed(
    center: Option<Vec3>,
    last_center: &mut Option<Vec3>,
    distance_squared: Scalar,
    settings_changed: bool,
) -> (go: bool)
    ensures
        go == (center is Some && !(*old(last_center) is Some && distance_squared.at_most(
            Scalar { bits: MMB_REEVAL_MOVE_YALMS_BITS },
        ) && !settings_changed)),
        *final(last_center) == (if go {
            center
        } else {
            *old(last_center)
        }),
        center is None ==> !go,
        center is Some && (settings_changed || *old(last_center) is None) ==> go,
        center is Some && *old(last_center) is Some && !settings_changed ==> (go
            <==> distance_squared.nan() || distance_squared.ordinal() > 0x3f80_0000),
{
    if center.is_none() {
        return false;
    }
    if last_center.is_some() && distance_squared.le(Scalar { bits: MMB_REEVAL_MOVE_YALMS_BITS })
        && !settings_changed {
        return false;
    }
    *last_center = center;
    true
}

impl ZonePlacement {
    /// The placement is retired: it is in the main block, and too far.
    pub open spec fn retires(self, main_slot: u8, retire_radius_squared: Scalar) -> bool {
        self.slot == main_slot && self.distance_squared.exceeds(retire_radius_squared)
    }

    /// The chunk that is placed.
    pub open spec fn chunk(self) -> (u32, usize) {
        (self.request.file_id, self.request.chunk_idx)
    }
}

/// The placements that are retired, in their order.
pub open spec fn retired(
    placements: Seq<ZonePlacement>,
    main_slot: u8,
    radius: Scalar,
) -> Seq<ZonePlacement> {
    placements.filter(|p: ZonePlacement| p.retires(main_slot, radius))
}

/// A placement of the chunk is retired.
pub open spec fn chunk_retires(
    placements: Seq<ZonePlacement>,
    main_slot: u8,
    radius: Scalar,
    chunk: (u32, usize),
) -> bool {
    exists|i: int|
        0 <= i < placements.len() && (#[trigger] placements[i]).retires(main_slot, radius)
            && placements[i].chunk() == chunk
}

/// A placement of the chunk stays.
pub open spec fn chunk_stays(
    placements: Seq<ZonePlacement>,
    main_slot: u8,
    radius: Scalar,
    chunk: (u32, usize),
) -> bool {
    exists|i: int|
        0 <= i < placements.len() && !(#[trigger] placements[i]).retires(main_slot, radius)
            && placements[i].chunk() == chunk
}

/// A placement out of the file is retired.
pub open spec fn file_retires(
    placements: Seq<ZonePlacement>,
    main_slot: u8,
    radius: Scalar,
    file_id: u32,
) -> bool {
    exists|i: int|
        0 <= i < placements.len() && (#[trigger] placements[i]).retires(main_slot, radius)
            && placements[i].request.file_id == file_id
}

/// A placement out of the file stays.
pub open spec fn file_stays(
    placements: Seq<ZonePlacement>,
    main_slot: u8,
    radius: Scalar,
    file_id: u32,
) -> bool {
    exists|i: int|
        0 <= i < placements.len() && !(#[trigger] placements[i]).retires(main_slot, radius)
            && placements[i].request.file_id == file_id
}

/// The chunks that are dropped: the last placement of each is retired.
pub open spec fn dropped_chunks(
    placements: Seq<ZonePlacement>,
    main_slot: u8,
    radius: Scalar,
) -> Set<(u32, usize)> {
    Set::new(
        |c: (u32, usize)|
            chunk_retires(placements, main_slot, radius, c) && !chunk_stays(
                placements,
                main_slot,
                radius,
                c,
            ),
    )
}

/// The files that are dropped: the last placement out of each is retired.
pub open spec fn dropped_files(
    placements: Seq<ZonePlacement>,
    main_slot: u8,
    radius: Scalar,
) -> Set<u32> {
    Set::new(
        |f: u32|
            file_retires(placements, main_slot, radius, f) && !file_stays(
                placements,
                main_slot,
                radius,
                f,
            ),
    )
}

/// A placement is retired where it is in the main block and its distance exceeds
/// the radius. The retired ones come in their order, all of them and no other: one
/// behind as many as are retired before it.
pub proof fn far_placements_retire_in_order(
    placements: Seq<ZonePlacement>,
    main_slot: u8,
    radius: Scalar,
    i: int,
)
    requires
        0 <= i < placements.len(),
    ensures
        ({
            let far = |p: ZonePlacement|
                p.slot == main_slot && !p.distance_squared.nan() && !radius.nan()
                    && p.distance_squared.ordinal() > radius.ordinal();
            let out = retired(placements, main_slot, radius);
            let place = count_kept(placements, far, i);
            &&& out.len() == count_kept(placements, far, placements.len() as int)
            &&& far(placements[i]) ==> 0 <= place < out.len() && out[place] == placements[i]
            &&& far(placements[i]) <==> placements[i].retires(main_slot, radius)
        }),
{
    let far = |p: ZonePlacement|
        p.slot == main_slot && !p.distance_squared.nan() && !radius.nan()
            && p.distance_squared.ordinal() > radius.ordinal();
    let keep = |p: ZonePlacement| p.retires(main_slot, radius);
    assert(far =~= keep);
    filtering_keeps_in_order(placements, keep, i);
}

/// A chunk is dropped where it is placed and all of its placements are retired. So
/// is a file: where something out of it is placed and all of that is retired.
pub proof fn chunks_and_files_go_with_their_last_placement(
    placements: Seq<ZonePlacement>,
    main_slot: u8,
    radius: Scalar,
    file_id: u32,
    chunk_idx: usize,
)
    ensures
        dropped_chunks(placements, main_slot, radius).contains((file_id, chunk_idx)) <==> {
            &&& exists|i: int|
                0 <= i < placements.len() && (#[trigger] placements[i]).request.file_id == file_id
                    && placements[i].request.chunk_idx == chunk_idx
            &&& forall|i: int|
                0 <= i < placements.len() && (#[trigger] placements[i]).request.file_id == file_id
                    && placements[i].request.chunk_idx == chunk_idx ==> placements[i].retires(
                    main_slot,
                    radius,
                )
        },
        dropped_files(placements, main_slot, radius).contains(file_id) <==> {
            &&& exists|i: int|
                0 <= i < placements.len() && (#[trigger] placements[i]).request.file_id == file_id
            &&& forall|i: int|
                0 <= i < placements.len() && (#[trigger] placements[i]).request.file_id == file_id
                    ==> placements[i].retires(main_slot, radius)
        },
{
}

/// Nothing is dropped that a placement which stays is made of.
pub proof fn staying_placements_keep_what_they_are_made_of(
    placements: Seq<ZonePlacement>,
    main_slot: u8,
    radius: Scalar,
    i: int,
)
    requires
        0 <= i < placements.len(),
        !placements[i].retires(main_slot, radius),
    ensures
        !dropped_chunks(placements, main_slot, radius).contains(placements[i].chunk()),
        !dropped_files(placements, main_slot, radius).contains(placements[i].request.file_id),
{
}

/// Everything is dropped that only retired placements are made of; and a file is
/// dropped together with all of its chunks that are placed.
pub proof fn retired_placements_leave_nothing_behind(
    placements: Seq<ZonePlacement>,
    main_slot: u8,
    radius: Scalar,
    i: int,
)
    requires
        0 <= i < placements.len(),
        placements[i].retires(main_slot, radius),
    ensures
        dropped_chunks(placements, main_slot, radius).contains(placements[i].chunk())
            || chunk_stays(placements, main_slot, radius, placements[i].chunk()),
        dropped_files(placements, main_slot, radius).contains(placements[i].request.file_id)
            ==> dropped_chunks(placements, main_slot, radius).contains(placements[i].chunk()),
{
    let chunk = placements[i].chunk();
    if chunk_stays(placements, main_slot, radius, chunk) {
        let k = choose|k: int|
            0 <= k < placements.len() && !(#[trigger] placements[k]).retires(main_slot, radius)
                && placements[k].chunk() == chunk;
        assert(file_stays(placements, main_slot, radius, chunk.0));
    }
}

/// Only the main block is retired, and within it only what is beyond the
/// radius.
pub proof fn near_placements_never_retire(p: ZonePlacement, main_slot: u8, radius: Scalar)
    requires
        p.slot != main_slot || p.distance_squared.at_most(radius),
    ensures
        !p.retires(main_slot, radius),
{
}

/// What a pass places is not retired from the same point, as long as the radius
/// of retirement is no smaller than that of the pass.
pub proof fn what_is_placed_is_not_retired_at_once(
    q: QueuedRequest,
    p: ZonePlacement,
    main_slot: u8,
    load_radius_squared: Scalar,
    retire_radius_squared: Scalar,
)
    requires
        q.request.zone_placement(),
        q.distance_squared == Some(p.distance_squared),
        !q.too_far(load_radius_squared),
        load_radius_squared.at_most(retire_radius_squared),
    ensures
        !p.retires(main_slot, retire_radius_squared),
{
}

/// Retires what is too far. The requests of retired placements go back into
/// the queue; the parse result, the handles and the task of a chunk are dropped
/// with its last placement, and the textures of a file with the last placement
/// out of it. Returns the entities to remove.
pub fn retire_far_zone_placements<M, T, H, K>(
    placements: &Vec<ZonePlacement>,
    main_slot: u8,
    retire_radius_squared: Scalar,
    queue: &mut MmbLoadQueue,
    parse: &mut MmbParseCache,
    handles: &mut MmbHandleCache<M, T>,
    pools: &mut MmbTexPools<H>,
    in_flight: &mut MmbLoadInFlight<K>,
    bank: &mut TextureBank,
) -> (despawn: Vec<u64>)
    ensures
        ({
            let gone = retired(placements@, main_slot, retire_radius_squared);
            let chunks = dropped_chunks(placements@, main_slot, retire_radius_squared);
            let files = dropped_files(placements@, main_slot, retire_radius_squared);
            &&& despawn@ == gone.map_values(|p: ZonePlacement| p.entity)
            &&& final(queue).pending@ == old(queue).pending@ + gone.map_values(
                |p: ZonePlacement| p.request,
            )
            &&& final(queue).last_eval_pos == old(queue).last_eval_pos
            &&& final(queue).budget_deferred == old(queue).budget_deferred
            &&& final(parse).by_asset@ == old(parse).by_asset@.remove_keys(chunks)
            &&& final(handles).mesh@ == old(handles).mesh@.remove_keys(chunks)
            &&& final(handles).material@ == old(handles).material@.remove_keys(chunks)
            &&& final(in_flight).tasks@ == old(in_flight).tasks@.remove_keys(chunks)
            &&& final(pools).by_file@ == old(pools).by_file@.remove_keys(files)
            &&& final(bank).sets@ == old(bank).sets@.remove_keys(files)
        }),
        old(pools).wf() ==> final(pools).wf(),
{
    let mut despawn: Vec<u64> = Vec::new();
    let mut to_retire: Vec<ZonePlacement> = Vec::new();
    let mut live_chunks: AssetMap<()> = AssetMap::new();
    let mut live_files: HashSet<u32> = HashSet::new();
    let ghost ps = placements@;
    let ghost r = retire_radius_squared;
    let ghost keep = |p: ZonePlacement| p.retires(main_slot, r);
    let mut i: usize = 0;
    assert(to_retire@ =~= ps.take(0).filter(keep));
    while i < placements.len()
        invariant
            i <= placements.len(),
            ps == placements@,
            r == retire_radius_squared,
            keep == (|p: ZonePlacement| p.retires(main_slot, r)),
            to_retire@ == ps.take(i as int).filter(keep),
            forall|c: (u32, usize)| #[trigger]
                live_chunks@.contains_key(c) <==> chunk_stays(ps.take(i as int), main_slot, r, c),
            forall|f: u32| #[trigger]
                live_files@.contains(f) <==> file_stays(ps.take(i as int), main_slot, r, f),
        decreases placements.len() - i,
    {
        let p = placements[i];
        let ghost before = ps.take(i as int);
        let ghost now = ps.take(i as int + 1);
        let ghost live_before = live_chunks@;
        let ghost files_before = live_files@;
        proof {
            assert(now.drop_last() =~= before);
            assert(now.last() == p);
            reveal(Seq::filter);
        }
        if p.slot == main_slot && zone_placement_should_retire(
            p.distance_squared,
            retire_radius_squared,
        ) {
            to_retire.push(p);
            proof {
                assert forall|c: (u32, usize)| chunk_stays(now, main_slot, r, c) == chunk_stays(
                    before,
                    main_slot,
                    r,
                    c,
                ) by {
                    lemma_stays_step(ps, i as int, main_slot, r, c);
                }
                assert forall|f: u32| file_stays(now, main_slot, r, f) == file_stays(
                    before,
                    main_slot,
                    r,
                    f,
                ) by {
                    lemma_file_stays_step(ps, i as int, main_slot, r, f);
                }
            }
        } else {
            live_chunks.insert(p.request.file_id, p.request.chunk_idx, ());
            live_files.insert(p.request.file_id);
            proof {
                assert forall|c: (u32, usize)| #[trigger]
                    live_chunks@.contains_key(c) <==> chunk_stays(now, main_slot, r, c) by {
                    lemma_stays_step(ps, i as int, main_slot, r, c);
                    assert(live_chunks@.contains_key(c) <==> live_before.contains_key(c) || c
                        == p.chunk());
                }
                assert forall|f: u32| #[trigger]
                    live_files@.contains(f) <==> file_stays(now, main_slot, r, f) by {
                    lemma_file_stays_step(ps, i as int, main_slot, r, f);
                    assert(live_files@.contains(f) <==> files_before.contains(f) || f
                        == p.request.file_id);
                }
            }
        }
        i = i + 1;
    }
    assert(ps.take(ps.len() as int) =~= ps);
    let ghost gone = retired(ps, main_slot, r);
    assert(to_retire@ == gone);
    let mut j: usize = 0;
    proof {
        assert(old(parse).by_asset@ =~= old(parse).by_asset@.remove_keys(
            done_chunks(gone, 0, ps, main_slot, r),
        ));
        assert(old(handles).mesh@ =~= old(handles).mesh@.remove_keys(
            done_chunks(gone, 0, ps, main_slot, r),
        ));
        assert(old(handles).material@ =~= old(handles).material@.remove_keys(
            done_chunks(gone, 0, ps, main_slot, r),
        ));
        assert(old(in_flight).tasks@ =~= old(in_flight).tasks@.remove_keys(
            done_chunks(gone, 0, ps, main_slot, r),
        ));
        assert(old(pools).by_file@ =~= old(pools).by_file@.remove_keys(
            done_files(gone, 0, ps, main_slot, r),
        ));
        assert(old(bank).sets@ =~= old(bank).sets@.remove_keys(
            done_files(gone, 0, ps, main_slot, r),
        ));
    }
    while j < to_retire.len()
        invariant
            j <= to_retire.len(),
            to_retire@ == gone,
            ps == placements@,
            r == retire_radius_squared,
            despawn@ =~= gone.take(j as int).map_values(|p: ZonePlacement| p.entity),
            queue.pending@ =~= old(queue).pending@ + gone.take(j as int).map_values(
                |p: ZonePlacement| p.request,
            ),
            queue.last_eval_pos == old(queue).last_eval_pos,
            queue.budget_deferred == old(queue).budget_deferred,
            forall|c: (u32, usize)| #[trigger]
                live_chunks@.contains_key(c) <==> chunk_stays(ps, main_slot, r, c),
            forall|f: u32| #[trigger] live_files@.contains(f) <==> file_stays(ps, main_slot, r, f),
            parse.by_asset@ == old(parse).by_asset@.remove_keys(
                done_chunks(gone, j as int, ps, main_slot, r),
            ),
            handles.mesh@ == old(handles).mesh@.remove_keys(
                done_chunks(gone, j as int, ps, main_slot, r),
            ),
            handles.material@ == old(handles).material@.remove_keys(
                done_chunks(gone, j as int, ps, main_slot, r),
            ),
            in_flight.tasks@ == old(in_flight).tasks@.remove_keys(
                done_chunks(gone, j as int, ps, main_slot, r),
            ),
            pools.by_file@ == old(pools).by_file@.remove_keys(
                done_files(gone, j as int, ps, main_slot, r),
            ),
            bank.sets@ == old(bank).sets@.remove_keys(
                done_files(gone, j as int, ps, main_slot, r),
            ),
            old(pools).wf() ==> pools.wf(),
        decreases to_retire.len() - j,
    {
        let p = to_retire[j];
        let file_id = p.request.file_id;
        let chunk_idx = p.request.chunk_idx;
        let ghost chunks = done_chunks(gone, j as int, ps, main_slot, r);
        let ghost chunks_next = done_chunks(gone, j as int + 1, ps, main_slot, r);
        let ghost files = done_files(gone, j as int, ps, main_slot, r);
        let ghost files_next = done_files(gone, j as int + 1, ps, main_slot, r);
        despawn.push(p.entity);
        queue.pending.push_back(p.request);
        proof {
            assert(gone.take(j as int + 1) =~= gone.take(j as int).push(p));
            lemma_done_step(gone, j as int, ps, main_slot, r);
        }
        if !live_chunks.contains(file_id, chunk_idx) {
            parse.drop_chunk(file_id, chunk_idx);
            handles.drop_chunk(file_id, chunk_idx);
            let _ = in_flight.tasks.remove(file_id, chunk_idx);
            if !live_files.contains(&file_id) {
                pools.drop_file(file_id);
                drop_mmb_file_textures(bank, file_id);
            }
        } else {
            proof {
                assert(file_stays(ps, main_slot, r, file_id)) by {
                    let k = choose|k: int|
                        0 <= k < ps.len() && !(#[trigger] ps[k]).retires(main_slot, r)
                            && ps[k].chunk() == (file_id, chunk_idx);
                    assert(ps[k].request.file_id == file_id);
                }
            }
        }
        proof {
            assert(parse.by_asset@ =~= old(parse).by_asset@.remove_keys(chunks_next));
            assert(handles.mesh@ =~= old(handles).mesh@.remove_keys(chunks_next));
            assert(handles.material@ =~= old(handles).material@.remove_keys(chunks_next));
            assert(in_flight.tasks@ =~= old(in_flight).tasks@.remove_keys(chunks_next));
            assert(pools.by_file@ =~= old(pools).by_file@.remove_keys(files_next));
            assert(bank.sets@ =~= old(bank).sets@.remove_keys(files_next));
        }
        j = j + 1;
    }
    proof {
        assert(gone.take(gone.len() as int) =~= gone);
        lemma_all_done(ps, main_slot, r);
    }
    despawn
}

/// The chunks that the first retired placements drop.
spec fn done_chunks(
    gone: Seq<ZonePlacement>,
    n: int,
    placements: Seq<ZonePlacement>,
    main_slot: u8,
    radius: Scalar,
) -> Set<(u32, usize)> {
    Set::new(
        |c: (u32, usize)|
            (exists|k: int| 0 <= k < n && (#[trigger] gone[k]).chunk() == c) && !chunk_stays(
                placements,
                main_slot,
                radius,
                c,
            ),
    )
}

/// The files that the first retired placements drop.
spec fn done_files(
    gone: Seq<ZonePlacement>,
    n: int,
    placements: Seq<ZonePlacement>,
    main_slot: u8,
    radius: Scalar,
) -> Set<u32> {
    Set::new(
        |f: u32|
            (exists|k: int| 0 <= k < n && (#[trigger] gone[k]).request.file_id == f) && !file_stays(
                placements,
                main_slot,
                radius,
                f,
            ),
    )
}

proof fn lemma_done_step(
    gone: Seq<ZonePlacement>,
    n: int,
    placements: Seq<ZonePlacement>,
    main_slot: u8,
    radius: Scalar,
)
    requires
        0 <= n < gone.len(),
    ensures
        done_chunks(gone, n + 1, placements, main_slot, radius) == (if chunk_stays(
            placements,
            main_slot,
            radius,
            gone[n].chunk(),
        ) {
            done_chunks(gone, n, placements, main_slot, radius)
        } else {
            done_chunks(gone, n, placements, main_slot, radius).insert(gone[n].chunk())
        }),
        done_files(gone, n + 1, placements, main_slot, radius) == (if file_stays(
            placements,
            main_slot,
            radius,
            gone[n].request.file_id,
        ) {
            done_files(gone, n, placements, main_slot, radius)
        } else {
            done_files(gone, n, placements, main_slot, radius).insert(gone[n].request.file_id)
        }),
{
    let chunks = done_chunks(gone, n, placements, main_slot, radius);
    let files = done_files(gone, n, placements, main_slot, radius);
    let stays = chunk_stays(placements, main_slot, radius, gone[n].chunk());
    let fstays = file_stays(placements, main_slot, radius, gone[n].request.file_id);
    assert(done_chunks(gone, n + 1, placements, main_slot, radius) =~= (if stays {
        chunks
    } else {
        chunks.insert(gone[n].chunk())
    }));
    assert(done_files(gone, n + 1, placements, main_slot, radius) =~= (if fstays {
        files
    } else {
        files.insert(gone[n].request.file_id)
    }));
}

proof fn lemma_all_done(placements: Seq<ZonePlacement>, main_slot: u8, radius: Scalar)
    ensures
        ({
            let gone = retired(placements, main_slot, radius);
            &&& done_chunks(gone, gone.len() as int, placements, main_slot, radius)
                == dropped_chunks(placements, main_slot, radius)
            &&& done_files(gone, gone.len() as int, placements, main_slot, radius)
                == dropped_files(placements, main_slot, radius)
        }),
{
    let keep = |p: ZonePlacement| p.retires(main_slot, radius);
    let gone = retired(placements, main_slot, radius);
    let n = gone.len() as int;
    assert forall|c: (u32, usize)|
        (exists|k: int| 0 <= k < n && (#[trigger] gone[k]).chunk() == c) == chunk_retires(
            placements,
            main_slot,
            radius,
            c,
        ) by {
        if exists|k: int| 0 <= k < n && (#[trigger] gone[k]).chunk() == c {
            let k = choose|k: int| 0 <= k < n && (#[trigger] gone[k]).chunk() == c;
            lemma_retired_is_placed(placements, main_slot, radius, k);
        }
        if chunk_retires(placements, main_slot, radius, c) {
            let i = choose|i: int|
                0 <= i < placements.len() && (#[trigger] placements[i]).retires(main_slot, radius)
                    && placements[i].chunk() == c;
            placements.lemma_filter_contains(keep, i);
            let k = choose|k: int| 0 <= k < n && gone[k] == placements[i];
            assert(gone[k].chunk() == c);
        }
    }
    assert forall|f: u32|
        (exists|k: int| 0 <= k < n && (#[trigger] gone[k]).request.file_id == f) == file_retires(
            placements,
            main_slot,
            radius,
            f,
        ) by {
        if exists|k: int| 0 <= k < n && (#[trigger] gone[k]).request.file_id == f {
            let k = choose|k: int| 0 <= k < n && (#[trigger] gone[k]).request.file_id == f;
            lemma_retired_is_placed(placements, main_slot, radius, k);
        }
        if file_retires(placements, main_slot, radius, f) {
            let i = choose|i: int|
                0 <= i < placements.len() && (#[trigger] placements[i]).retires(main_slot, radius)
                    && placements[i].request.file_id == f;
            placements.lemma_filter_contains(keep, i);
            let k = choose|k: int| 0 <= k < n && gone[k] == placements[i];
            assert(gone[k].request.file_id == f);
        }
    }
    assert(done_chunks(gone, n, placements, main_slot, radius) =~= dropped_chunks(
        placements,
        main_slot,
        radius,
    ));
    assert(done_files(gone, n, placements, main_slot, radius) =~= dropped_files(
        placements,
        main_slot,
        radius,
    ));
}

proof fn lemma_retired_is_placed(
    placements: Seq<ZonePlacement>,
    main_slot: u8,
    radius: Scalar,
    k: int,
)
    requires
        0 <= k < retired(placements, main_slot, radius).len(),
    ensures
        exists|i: int|
            0 <= i < placements.len() && (#[trigger] placements[i]).retires(main_slot, radius)
                && placements[i] == retired(placements, main_slot, radius)[k],
{
    let keep = |p: ZonePlacement| p.retires(main_slot, radius);
    let p = placements.filter(keep)[k];
    assert(placements.filter(keep).contains(p));
    placements.lemma_filter_contains_rev(keep, p);
    placements.lemma_filter_pred(keep, k);
    let i = choose|i: int| 0 <= i < placements.len() && placements[i] == p;
    assert(placements[i].retires(main_slot, radius));
}

proof fn lemma_stays_step(
    placements: Seq<ZonePlacement>,
    n: int,
    main_slot: u8,
    radius: Scalar,
    c: (u32, usize),
)
    requires
        0 <= n < placements.len(),
    ensures
        chunk_stays(placements.take(n + 1), main_slot, radius, c) == (chunk_stays(
            placements.take(n),
            main_slot,
            radius,
            c,
        ) || (!placements[n].retires(main_slot, radius) && placements[n].chunk() == c)),
{
    let before = placements.take(n);
    let now = placements.take(n + 1);
    if chunk_stays(now, main_slot, radius, c) {
        let i = choose|i: int|
            0 <= i < now.len() && !(#[trigger] now[i]).retires(main_slot, radius) && now[i].chunk()
                == c;
        if i < n {
            assert(before[i] == now[i]);
        }
    }
    if chunk_stays(before, main_slot, radius, c) {
        let i = choose|i: int|
            0 <= i < before.len() && !(#[trigger] before[i]).retires(main_slot, radius)
                && before[i].chunk() == c;
        assert(now[i] == before[i]);
    }
    assert(now[n] == placements[n]);
}

proof fn lemma_file_stays_step(
    placements: Seq<ZonePlacement>,
    n: int,
    main_slot: u8,
    radius: Scalar,
    f: u32,
)
    requires
        0 <= n < placements.len(),
    ensures
        file_stays(placements.take(n + 1), main_slot, radius, f) == (file_stays(
            placements.take(n),
            main_slot,
            radius,
            f,
        ) || (!placements[n].retires(main_slot, radius) && placements[n].request.file_id == f)),
{
    let before = placements.take(n);
    let now = placements.take(n + 1);
    if file_stays(now, main_slot, radius, f) {
        let i = choose|i: int|
            0 <= i < now.len() && !(#[trigger] now[i]).retires(main_slot, radius)
                && now[i].request.file_id == f;
        if i < n {
            assert(before[i] == now[i]);
        }
    }
    if file_stays(before, main_slot, radius, f) {
        let i = choose|i: int|
            0 <= i < before.len() && !(#[trigger] before[i]).retires(main_slot, radius)
                && before[i].request.file_id == f;
        assert(now[i] == before[i]);
    }
    assert(now[n] == placements[n]);
}

} // verus!
