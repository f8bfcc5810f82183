//! The model of a group: what a group is as maps, sets and sequences, what
//! each operation on it does, and what holds of the operations.

use crate::btree::{increasing, lemma_increasing_unique};
use crate::group::Visibility;
use crate::image::{Image, MetadataState, R};
use crate::metadata::{lemma_nearest_exists, Metadata};
use crate::tile_ref::TileRef;
use crate::vec2::pair_key;
use vstd::arithmetic::power2::pow2;
use vstd::prelude::*;

verus! {

/// The model of a level change that waits for its tiles: the image's key,
/// the level it moves to, and the addresses that are being fetched.
pub struct PendingView {
    pub key: u64,
    pub level: usize,
    pub refs: Seq<TileRef>,
}

/// The model of a group. Coordinates appear as keys (see `coords_key_spec`).
#[verifier::ext_equal]
pub struct GroupView<T> {
    /// The least coordinates seen, component by component, starting from 0.
    pub min_extent: (u32, u32),
    /// One more than the greatest coordinates seen, component by component.
    pub max_extent: (u32, u32),
    /// The images, by coordinate.
    pub images: Map<u64, Image>,
    /// The resident tiles, by address.
    pub tiles: Map<u64, T>,
    /// The images whose cache is to be checked, first in, first out.
    pub cache_todo: Seq<u64>,
    /// The images for which a pyramid is to be generated, first in, first out.
    pub thumb_todo: Seq<u64>,
    /// The images for which a generation job is running.
    pub in_flight: Set<u64>,
    /// The level change that waits for its tiles, if there is one.
    pub pending: Option<PendingView>,
}

/// The model of a `ThumbJob`, with the coordinate as a key.
pub struct JobView {
    pub key: u64,
    pub tile_id_index: u64,
}

/// The model of a `CacheAction`, with the coordinate as a key.
#[verifier::ext_equal]
pub enum ActionView {
    Idle,
    Lookup { key: u64 },
    Fetch { key: u64, level: usize, refs: Seq<TileRef> },
}

/// The addresses of a sequence of tile references.
pub open spec fn addresses(refs: Seq<TileRef>) -> Set<u64> {
    Set::new(|a: u64| exists|i: int| 0 <= i < refs.len() && #[trigger] refs[i].0 == a)
}

/// The addresses of all tiles of the levels of `m` other than `level`.
pub open spec fn other_levels(m: Metadata, level: int) -> Set<u64> {
    Set::new(
        |a: u64|
            exists|j: int|
                0 <= j < m.thumbs@.len() && j != level && #[trigger] addresses(
                    m.thumbs@[j].tile_refs@,
                ).contains(a),
    )
}

/// The addresses of the tiles of the levels of `m` before level `upto`, but
/// for those of level `level`.
pub open spec fn other_levels_before(m: Metadata, level: int, upto: int) -> Set<u64> {
    Set::new(
        |a: u64|
            exists|j: int|
                0 <= j < m.thumbs@.len() && j < upto && j != level && #[trigger] addresses(
                    m.thumbs@[j].tile_refs@,
                ).contains(a),
    )
}

/// The position at which an address occurs in a sequence of tile references.
pub open spec fn position(refs: Seq<TileRef>, a: u64) -> int {
    choose|i: int| 0 <= i < refs.len() && #[trigger] refs[i].0 == a
}

/// The resident tiles once the tiles `loaded` have come in for the addresses
/// `refs`, one for one: each address of `refs` holds the tile that came for
/// it, every other address holds what it held.
pub open spec fn with_tiles<T>(tiles: Map<u64, T>, refs: Seq<TileRef>, loaded: Seq<T>) -> Map<u64, T> {
    Map::new(
        |a: u64| tiles.contains_key(a) || addresses(refs).contains(a),
        |a: u64|
            if addresses(refs).contains(a) {
                loaded[position(refs, a)]
            } else {
                tiles[a]
            },
    )
}

/// The tile references of `refs` that are not resident, each once, in the
/// order in which they first occur.
pub open spec fn missing_refs(refs: Seq<TileRef>, resident: Set<u64>) -> Seq<TileRef>
    decreases refs.len(),
{
    if refs.len() == 0 {
        Seq::empty()
    } else {
        let rest = missing_refs(refs.drop_last(), resident);
        let t = refs.last();
        if resident.contains(t.0) || addresses(rest).contains(t.0) {
            rest
        } else {
            rest.push(t)
        }
    }
}

/// By how many bits the target size is shifted down for an image: not at all
/// for a visible one, by its excess for one that is not.
pub open spec fn shift_spec(vis: Visibility) -> nat {
    if vis.visible {
        0
    } else {
        vis.excess as nat
    }
}

/// The target size that counts for an image: the requested one shifted right
/// by the image's shift, which is 0 once the shift reaches the width of the
/// size.
pub open spec fn effective_target(target: u32, vis: Visibility) -> u32 {
    (target as nat / pow2(shift_spec(vis))) as u32
}

/// The level of `m` nearest to a target size.
pub open spec fn nearest_spec(m: Metadata, target: u32) -> int {
    choose|r: int| m.is_nearest(target, r)
}

/// One level from `current` towards `nearest`, and `current` itself where
/// the two are the same.
pub open spec fn step_level(current: int, nearest: int) -> int {
    if nearest < current {
        current - 1
    } else if nearest > current {
        current + 1
    } else {
        current
    }
}

/// The level that an image moves to in one pass, or `None` where it stays:
/// because it has no pyramid, or no level, or is at the level nearest to its
/// effective target size.
pub open spec fn next_level(img: Image, target: u32, vis: Visibility) -> Option<usize> {
    match img.state() {
        MetadataState::Loaded(m) => {
            let near = nearest_spec(m, effective_target(target, vis));
            if m.thumbs@.len() == 0 || near == img.current_level() {
                None
            } else {
                Some(step_level(img.current_level(), near) as usize)
            }
        },
        _ => None,
    }
}

/// The pyramid state that follows from a metadata lookup: loaded where the
/// store held metadata, missing where it held none, errored where the lookup
/// failed.
pub open spec fn lookup_state(found: R<Option<Metadata>>) -> MetadataState {
    match found {
        Ok(Some(m)) => MetadataState::Loaded(m),
        Ok(None) => MetadataState::Missing,
        Err(_) => MetadataState::Errored,
    }
}

/// The pyramid state that follows from a finished generation job: loaded with
/// the metadata it produced, or errored.
pub open spec fn outcome_state(outcome: R<Metadata>) -> MetadataState {
    match outcome {
        Ok(m) => MetadataState::Loaded(m),
        Err(_) => MetadataState::Errored,
    }
}

/// The keys of a sequence of jobs.
pub open spec fn job_keys(jobs: Seq<JobView>) -> Set<u64> {
    Set::new(|k: u64| exists|i: int| 0 <= i < jobs.len() && #[trigger] jobs[i].key == k)
}

/// The increasing sequence of the keys in `dom`.
pub open spec fn ordered(dom: Set<u64>) -> Seq<u64> {
    choose|s: Seq<u64>| increasing(s) && s.to_set() == dom
}

/// The images of a group in the order of their coordinates.
pub open spec fn images_in_order<T>(v: GroupView<T>) -> Seq<Image> {
    ordered(v.images.dom()).map_values(|k: u64| v.images[k])
}

impl<T> GroupView<T> {
    /// The group with no image, no tile and nothing queued.
    pub open spec fn empty() -> GroupView<T> {
        GroupView {
            min_extent: (0, 0),
            max_extent: (0, 0),
            images: Map::empty(),
            tiles: Map::empty(),
            cache_todo: Seq::empty(),
            thumb_todo: Seq::empty(),
            in_flight: Set::empty(),
            pending: None,
        }
    }

    /// Whether the image under `key` has a pyramid of which `level` is a level.
    pub open spec fn has_level(self, key: u64, level: int) -> bool {
        &&& self.images.contains_key(key)
        &&& 0 <= level < self.images[key].level_count()
    }

    /// The tile references of a level of the image under `key`.
    pub open spec fn level_refs(self, key: u64, level: int) -> Seq<TileRef> {
        self.images[key].state()->Loaded_0.thumbs@[level].tile_refs@
    }

    /// Whether a pending level change fits the group: it moves a known image
    /// by one level, it fetches each tile once and none that is resident, and
    /// with what it fetches every tile of the new level is at hand.
    pub open spec fn pending_fits(self, p: PendingView) -> bool {
        &&& self.has_level(p.key, p.level as int)
        &&& p.level - self.images[p.key].current_level() == 1 || self.images[p.key].current_level()
            - p.level == 1
        &&& p.refs.no_duplicates()
        &&& forall|i: int| 0 <= i < p.refs.len() ==> !self.tiles.contains_key(#[trigger] p.refs[i].0)
        &&& forall|i: int|
            0 <= i < p.refs.len() ==> addresses(self.level_refs(p.key, p.level as int)).contains(
                #[trigger] p.refs[i].0,
            )
        &&& forall|a: u64| #[trigger]
            addresses(self.level_refs(p.key, p.level as int)).contains(a)
                ==> self.tiles.contains_key(a) || addresses(p.refs).contains(a)
    }

    /// The invariant of a group: every image is well formed, the queues and
    /// the jobs in flight name images of the group, and a pending level
    /// change fits.
    pub open spec fn wf(self) -> bool {
        &&& self.images.dom().finite()
        &&& self.tiles.dom().finite()
        &&& self.in_flight.finite()
        &&& forall|k: u64| #[trigger] self.images.contains_key(k) ==> self.images[k].wf()
        &&& forall|i: int|
            0 <= i < self.cache_todo.len() ==> self.images.contains_key(#[trigger] self.cache_todo[i])
        &&& forall|i: int|
            0 <= i < self.thumb_todo.len() ==> self.images.contains_key(#[trigger] self.thumb_todo[i])
        &&& forall|k: u64| #[trigger] self.in_flight.contains(k) ==> self.images.contains_key(k)
        &&& self.pending matches Some(p) ==> self.pending_fits(p)
    }

    /// The group with an image put under a coordinate: the extents grow to
    /// hold the coordinate, and a pending level change of the image that was
    /// there is given up.
    pub open spec fn insert(self, x: u32, y: u32, image: Image) -> GroupView<T> {
        let key = pair_key(x, y);
        GroupView {
            min_extent: (
                if self.min_extent.0 <= x {
                    self.min_extent.0
                } else {
                    x
                },
                if self.min_extent.1 <= y {
                    self.min_extent.1
                } else {
                    y
                },
            ),
            max_extent: (
                if self.max_extent.0 >= x + 1 {
                    self.max_extent.0
                } else {
                    (x + 1) as u32
                },
                if self.max_extent.1 >= y + 1 {
                    self.max_extent.1
                } else {
                    (y + 1) as u32
                },
            ),
            images: self.images.insert(key, image),
            pending: match self.pending {
                Some(p) => if p.key == key {
                    None
                } else {
                    self.pending
                },
                None => None,
            },
            ..self
        }
    }

    /// The group after the decision on the image under `key`, with what the
    /// caller is to do. A missing image is queued for generation. A loaded
    /// image that is not at its nearest level starts a change by one level:
    /// the tiles of the new level that are not resident are to be fetched.
    /// Any other image is left alone.
    pub open spec fn decide(self, key: u64, target: u32, vis: Visibility) -> (GroupView<T>, ActionView) {
        let img = self.images[key];
        match img.state() {
            MetadataState::Missing => (
                GroupView { thumb_todo: self.thumb_todo.push(key), pending: None, ..self },
                ActionView::Idle,
            ),
            MetadataState::Loaded(m) => match next_level(img, target, vis) {
                Some(level) => {
                    let refs = missing_refs(m.thumbs@[level as int].tile_refs@, self.tiles.dom());
                    (
                        GroupView { pending: Some(PendingView { key, level, refs }), ..self },
                        ActionView::Fetch { key, level, refs },
                    )
                },
                None => (GroupView { pending: None, ..self }, ActionView::Idle),
            },
            _ => (GroupView { pending: None, ..self }, ActionView::Idle),
        }
    }

    /// The group after one cache check, with what the caller is to do. A
    /// level change that was pending is given up. The image at the front of
    /// the check queue leaves the queue; where nothing is known of it yet its
    /// metadata is to be looked up, otherwise the decision on it is made.
    pub open spec fn load_cache(self, target: u32, vis: Visibility) -> (GroupView<T>, ActionView) {
        if self.cache_todo.len() == 0 {
            (GroupView { pending: None, ..self }, ActionView::Idle)
        } else {
            let key = self.cache_todo[0];
            let rest = GroupView { cache_todo: self.cache_todo.drop_first(), pending: None, ..self };
            if self.images[key].state() is Unknown {
                (rest, ActionView::Lookup { key })
            } else {
                rest.decide(key, target, vis)
            }
        }
    }

    /// The group after a metadata lookup for the image under `key` came back,
    /// with what the caller is to do. Where the group holds such an image and
    /// knows nothing of it yet, the image takes the state `state` and the
    /// decision on it is made. Otherwise nothing changes.
    pub open spec fn metadata_loaded(
        self,
        key: u64,
        state: MetadataState,
        target: u32,
        vis: Visibility,
    ) -> (GroupView<T>, ActionView) {
        if self.images.contains_key(key) && self.images[key].state() is Unknown {
            (GroupView {
                images: self.images.insert(key, self.images[key].with_state(state)),
                pending: None,
                ..self
            }).decide(key, target, vis)
        } else {
            (self, ActionView::Idle)
        }
    }

    /// The group after the tiles of the pending level change came in, and
    /// whether they were taken. They are taken where a level change is
    /// pending and as many tiles came as were asked for. Then the tiles are
    /// resident under the addresses they were fetched for, every tile of the
    /// image's other levels is evicted, the image is at the new level, and it
    /// is queued again for the next check. Otherwise nothing changes.
    pub open spec fn tiles_loaded(self, loaded: Seq<T>) -> (GroupView<T>, bool) {
        if self.pending is Some && self.pending->0.refs.len() == loaded.len() {
            let p = self.pending->0;
            let img = self.images[p.key];
            (
                GroupView {
                    tiles: with_tiles(self.tiles, p.refs, loaded).remove_keys(
                        other_levels(img.state()->Loaded_0, p.level as int),
                    ),
                    images: self.images.insert(p.key, img.with_level(Some(p.level))),
                    cache_todo: self.cache_todo.push(p.key),
                    pending: None,
                    ..self
                },
                true,
            )
        } else {
            (self, false)
        }
    }

    /// The job for the image under `key`: its tiles are numbered from the base
    /// id plus the image's sequence number, wrapping around.
    pub open spec fn job(self, key: u64, base_id: u64) -> JobView {
        JobView {
            key,
            tile_id_index: vstd::wrapping::u64_specs::wrapping_add(
                base_id,
                self.images[key].index() as u64,
            ),
        }
    }

    /// The group after admission, with the jobs that the caller is to start,
    /// in order. While at most one job is in flight, the request at the front
    /// of the queue leaves the queue; it becomes a job, and is in flight from
    /// then on, where its image is missing and has no job in flight yet.
    pub open spec fn make_thumbs(self, base_id: u64) -> (GroupView<T>, Seq<JobView>)
        decreases self.thumb_todo.len(),
    {
        if self.in_flight.len() > 1 || self.thumb_todo.len() == 0 {
            (self, Seq::empty())
        } else {
            let key = self.thumb_todo[0];
            let rest = GroupView { thumb_todo: self.thumb_todo.drop_first(), ..self };
            if self.images[key].state() is Missing && !self.in_flight.contains(key) {
                let after = (GroupView { in_flight: self.in_flight.insert(key), ..rest }).make_thumbs(
                    base_id,
                );
                (after.0, seq![self.job(key, base_id)] + after.1)
            } else {
                rest.make_thumbs(base_id)
            }
        }
    }

    /// The group after the job of the image under `key` finished. Where such
    /// a job is in flight, it no longer is, the image is loaded with the
    /// metadata that the job produced or errored where it failed, a level
    /// change pending for the image is given up, and a loaded image is put at
    /// the front of the check queue. Otherwise nothing changes.
    pub open spec fn recv_thumb(self, key: u64, outcome: R<Metadata>) -> GroupView<T> {
        if self.in_flight.contains(key) {
            GroupView {
                in_flight: self.in_flight.remove(key),
                images: self.images.insert(
                    key,
                    self.images[key].with_state(outcome_state(outcome)),
                ),
                cache_todo: if outcome is Ok {
                    seq![key] + self.cache_todo
                } else {
                    self.cache_todo
                },
                pending: match self.pending {
                    Some(p) => if p.key == key {
                        None
                    } else {
                        self.pending
                    },
                    None => None,
                },
                ..self
            }
        } else {
            self
        }
    }

    /// The group with every image queued for a cache check, in the order of
    /// their coordinates, in place of what was queued, and with no thumbnail
    /// request queued.
    pub open spec fn recheck(self) -> GroupView<T> {
        GroupView { cache_todo: ordered(self.images.dom()), thumb_todo: Seq::empty(), ..self }
    }

    /// The group with every image's loaded level forgotten, no tile resident,
    /// both queues empty and no level change pending. The jobs in flight stay.
    pub open spec fn reset(self) -> GroupView<T> {
        GroupView {
            images: self.images.map_values(|img: Image| img.with_level(None)),
            tiles: Map::empty(),
            cache_todo: Seq::empty(),
            thumb_todo: Seq::empty(),
            pending: None,
            ..self
        }
    }
}

/// A level change moves an image by exactly one level, towards the level
/// nearest to its effective target size, and to a level of its pyramid.
pub proof fn lemma_one_level_per_pass(img: Image, target: u32, vis: Visibility)
    requires
        img.wf(),
        next_level(img, target, vis) is Some,
    ensures
        ({
            let level = next_level(img, target, vis)->0 as int;
            let near = nearest_spec(img.state()->Loaded_0, effective_target(target, vis));
            let current = img.current_level();
            &&& 0 <= level < img.level_count()
            &&& level - current == 1 || current - level == 1
            &&& current < near ==> level == current + 1
            &&& current > near ==> level == current - 1
            &&& 0 <= near < img.level_count()
        }),
{
    let m = img.state()->Loaded_0;
    let eff = effective_target(target, vis);
    lemma_nearest_exists(m, eff);
    let near = nearest_spec(m, eff);
    assert(m.is_nearest(eff, near));
    let current = img.current_level();
    assert(0 <= current < m.thumbs@.len());
    assert(m.thumbs.len() == m.thumbs@.len());
    assert(0 <= step_level(current, near) < m.thumbs@.len());
}

/// A level change that is carried out leaves the image exactly one level from
/// where it was, the level being counted as 0 where none was loaded.
pub proof fn lemma_level_moves_by_one<T>(v: GroupView<T>, loaded: Seq<T>)
    requires
        v.wf(),
        v.tiles_loaded(loaded).1,
    ensures
        ({
            let key = v.pending->0.key;
            let before = v.images[key].current_level();
            let after = v.tiles_loaded(loaded).0.images[key].current_level();
            after - before == 1 || before - after == 1
        }),
{
    let p = v.pending->0;
    v.images[p.key].lemma_with_level(Some(p.level));
}

/// After a level change no tile of any other level of the image is resident,
/// every tile of the new level that no other level shares is, and the image
/// is at the new level.
pub proof fn lemma_eviction<T>(v: GroupView<T>, loaded: Seq<T>)
    requires
        v.wf(),
        v.tiles_loaded(loaded).1,
    ensures
        ({
            let w = v.tiles_loaded(loaded).0;
            let p = v.pending->0;
            let m = v.images[p.key].state()->Loaded_0;
            &&& w.images[p.key].level() == Some(p.level)
            &&& w.images[p.key].state() == v.images[p.key].state()
            &&& forall|j: int, i: int|
                0 <= j < m.thumbs@.len() && j != p.level && 0 <= i < m.thumbs@[j].tile_refs@.len()
                    ==> !w.tiles.contains_key(#[trigger] m.thumbs@[j].tile_refs@[i].0)
            &&& forall|i: int|
                0 <= i < m.thumbs@[p.level as int].tile_refs@.len() && !other_levels(
                    m,
                    p.level as int,
                ).contains(m.thumbs@[p.level as int].tile_refs@[i].0) ==> w.tiles.contains_key(
                    #[trigger] m.thumbs@[p.level as int].tile_refs@[i].0,
                )
        }),
{
    let w = v.tiles_loaded(loaded).0;
    let p = v.pending->0;
    let img = v.images[p.key];
    let m = img.state()->Loaded_0;
    img.lemma_with_level(Some(p.level));
    assert forall|j: int, i: int|
        0 <= j < m.thumbs@.len() && j != p.level && 0 <= i < m.thumbs@[j].tile_refs@.len() implies !w.tiles.contains_key(
        #[trigger] m.thumbs@[j].tile_refs@[i].0,
    ) by {
        let a = m.thumbs@[j].tile_refs@[i].0;
        assert(addresses(m.thumbs@[j].tile_refs@).contains(a));
        assert(other_levels(m, p.level as int).contains(a));
    }
    assert forall|i: int|
        0 <= i < m.thumbs@[p.level as int].tile_refs@.len() && !other_levels(
            m,
            p.level as int,
        ).contains(m.thumbs@[p.level as int].tile_refs@[i].0) implies w.tiles.contains_key(
        #[trigger] m.thumbs@[p.level as int].tile_refs@[i].0,
    ) by {
        let a = m.thumbs@[p.level as int].tile_refs@[i].0;
        assert(addresses(v.level_refs(p.key, p.level as int)).contains(a));
    }
}

/// Admission keeps the group's invariant and never starts a second job for a
/// coordinate: the jobs are for missing images, no two for one coordinate and
/// none for a coordinate in flight; exactly their coordinates join the set in
/// flight; and that set holds at most two coordinates, unless it held more
/// before.
pub proof fn lemma_admission<T>(v: GroupView<T>, base_id: u64)
    requires
        v.wf(),
    ensures
        ({
            let w = v.make_thumbs(base_id).0;
            let jobs = v.make_thumbs(base_id).1;
            &&& w.wf()
            &&& w.in_flight == v.in_flight.union(job_keys(jobs))
            &&& w.images == v.images
            &&& w.tiles == v.tiles
            &&& w.cache_todo == v.cache_todo
            &&& w.pending == v.pending
            &&& forall|i: int|
                0 <= i < jobs.len() ==> !v.in_flight.contains(#[trigger] jobs[i].key)
                    && v.images.contains_key(jobs[i].key) && v.images[jobs[i].key].state() is Missing
                    && jobs[i] == v.job(jobs[i].key, base_id)
            &&& forall|i: int, j: int|
                0 <= i < j < jobs.len() ==> (#[trigger] jobs[i]).key != (#[trigger] jobs[j]).key
            &&& w.in_flight.len() <= 2 || w.in_flight.len() <= v.in_flight.len()
            &&& w.in_flight.len() <= 1 ==> w.thumb_todo.len() == 0
        }),
    decreases v.thumb_todo.len(),
{
    let w = v.make_thumbs(base_id).0;
    let jobs = v.make_thumbs(base_id).1;
    if v.in_flight.len() > 1 || v.thumb_todo.len() == 0 {
        assert(job_keys(jobs) =~= Set::<u64>::empty());
        assert(w.in_flight =~= v.in_flight.union(job_keys(jobs)));
    } else {
        let key = v.thumb_todo[0];
        let rest = GroupView { thumb_todo: v.thumb_todo.drop_first(), ..v };
        lemma_admit_step_wf(v);
        if v.images[key].state() is Missing && !v.in_flight.contains(key) {
            let next = GroupView { in_flight: v.in_flight.insert(key), ..rest };
            assert(next.wf());
            lemma_admission(next, base_id);
            let tail = next.make_thumbs(base_id).1;
            assert(jobs == seq![v.job(key, base_id)] + tail);
            assert forall|k: u64| job_keys(jobs).contains(k) <==> (k == key || job_keys(tail).contains(
                k,
            )) by {
                if job_keys(jobs).contains(k) {
                    let i = choose|i: int| 0 <= i < jobs.len() && #[trigger] jobs[i].key == k;
                    if i > 0 {
                        assert(tail[i - 1].key == k);
                    }
                }
                if job_keys(tail).contains(k) {
                    let i = choose|i: int| 0 <= i < tail.len() && #[trigger] tail[i].key == k;
                    assert(jobs[i + 1].key == k);
                }
                if k == key {
                    assert(jobs[0].key == k);
                }
            }
            assert(w.in_flight =~= v.in_flight.union(job_keys(jobs)));
            assert forall|i: int| 0 <= i < jobs.len() implies !v.in_flight.contains(
                #[trigger] jobs[i].key,
            ) && v.images.contains_key(jobs[i].key) && v.images[jobs[i].key].state() is Missing
                && jobs[i] == v.job(jobs[i].key, base_id) by {
                if i > 0 {
                    assert(jobs[i] == tail[i - 1]);
                    assert(!next.in_flight.contains(tail[i - 1].key));
                    assert(tail[i - 1] == next.job(tail[i - 1].key, base_id));
                }
            }
            assert forall|i: int, j: int| 0 <= i < j < jobs.len() implies (#[trigger] jobs[i]).key != (
            #[trigger] jobs[j]).key by {
                assert(jobs[j] == tail[j - 1]);
                if i > 0 {
                    assert(jobs[i] == tail[i - 1]);
                } else {
                    assert(!next.in_flight.contains(tail[j - 1].key));
                }
            }
        } else {
            lemma_admission(rest, base_id);
        }
    }
}

/// Once the lookup for an image came back, something is known of the image;
/// and an image that turned out missing is at the end of the request queue.
pub proof fn lemma_lookup_settles<T>(
    v: GroupView<T>,
    key: u64,
    found: R<Option<Metadata>>,
    target: u32,
    vis: Visibility,
)
    requires
        v.wf(),
        v.images.contains_key(key),
        v.images[key].state() is Unknown,
    ensures
        ({
            let w = v.metadata_loaded(key, lookup_state(found), target, vis).0;
            &&& w.images.contains_key(key)
            &&& w.images[key].state() == lookup_state(found)
            &&& !(w.images[key].state() is Unknown)
            &&& w.images[key].state() is Missing ==> w.thumb_todo == v.thumb_todo.push(key)
            &&& !(w.images[key].state() is Missing) ==> w.thumb_todo == v.thumb_todo
        }),
{
    v.images[key].lemma_with_state(lookup_state(found));
}

/// Putting a well-formed image into a group keeps the group's invariant.
pub proof fn lemma_insert_wf<T>(v: GroupView<T>, x: u32, y: u32, image: Image)
    requires
        v.wf(),
        image.wf(),
    ensures
        v.insert(x, y, image).wf(),
{
    let w = v.insert(x, y, image);
    let key = pair_key(x, y);
    if w.pending is Some {
        let p = w.pending->0;
        assert(v.pending == Some(p));
        assert(p.key != key);
        assert(w.images[p.key] == v.images[p.key]);
        assert(w.level_refs(p.key, p.level as int) == v.level_refs(p.key, p.level as int));
        assert(w.pending_fits(p));
    }
}

/// Taking the front of the check queue keeps the group's invariant.
pub proof fn lemma_pop_check_wf<T>(v: GroupView<T>)
    requires
        v.wf(),
        v.cache_todo.len() > 0,
    ensures
        v.images.contains_key(v.cache_todo[0]),
        (GroupView { cache_todo: v.cache_todo.drop_first(), pending: None, ..v }).wf(),
{
    let rest = v.cache_todo.drop_first();
    assert forall|i: int| 0 <= i < rest.len() implies v.images.contains_key(#[trigger] rest[i]) by {
        assert(rest[i] == v.cache_todo[i + 1]);
    }
}

/// Recording what a lookup found of an unknown image keeps the group's
/// invariant, once a pending level change is given up.
pub proof fn lemma_set_state_wf<T>(v: GroupView<T>, key: u64, state: MetadataState)
    requires
        v.wf(),
        v.images.contains_key(key),
    ensures
        (GroupView {
            images: v.images.insert(key, v.images[key].with_state(state)),
            pending: None,
            ..v
        }).wf(),
{
    v.images[key].lemma_with_state(state);
}

/// The decision on an image keeps the group's invariant.
pub proof fn lemma_decide_wf<T>(v: GroupView<T>, key: u64, target: u32, vis: Visibility)
    requires
        v.wf(),
        v.images.contains_key(key),
    ensures
        v.decide(key, target, vis).0.wf(),
{
    let w = v.decide(key, target, vis).0;
    let img = v.images[key];
    assert(img.wf());
    if w.pending is Some {
        let p = w.pending->0;
        let m = img.state()->Loaded_0;
        lemma_one_level_per_pass(img, target, vis);
        lemma_missing_refs(m.thumbs@[p.level as int].tile_refs@, v.tiles.dom());
        assert(w.pending_fits(p));
    } else {
        match img.state() {
            MetadataState::Missing => {
                assert forall|i: int| 0 <= i < w.thumb_todo.len() implies w.images.contains_key(
                    #[trigger] w.thumb_todo[i],
                ) by {
                    if i < v.thumb_todo.len() {
                        assert(w.thumb_todo[i] == v.thumb_todo[i]);
                    }
                }
            },
            _ => {},
        }
    }
}

/// Taking the tiles of a pending level change keeps the group's invariant.
pub proof fn lemma_tiles_loaded_wf<T>(v: GroupView<T>, loaded: Seq<T>)
    requires
        v.wf(),
    ensures
        v.tiles_loaded(loaded).0.wf(),
{
    let w = v.tiles_loaded(loaded).0;
    if v.tiles_loaded(loaded).1 {
        let p = v.pending->0;
        let img = v.images[p.key];
        img.lemma_with_level(Some(p.level));
        assert(w.images[p.key].wf());
        assert forall|i: int| 0 <= i < w.cache_todo.len() implies w.images.contains_key(
            #[trigger] w.cache_todo[i],
        ) by {
            if i < v.cache_todo.len() {
                assert(w.cache_todo[i] == v.cache_todo[i]);
            }
        }
        assert(w.tiles.dom().finite()) by {
            lemma_addresses_finite(p.refs);
            assert(with_tiles(v.tiles, p.refs, loaded).dom() =~= v.tiles.dom().union(
                addresses(p.refs),
            ));
            assert(w.tiles.dom().subset_of(with_tiles(v.tiles, p.refs, loaded).dom()));
            vstd::set_lib::lemma_len_subset(w.tiles.dom(), with_tiles(v.tiles, p.refs, loaded).dom());
        }
    }
}

/// One step of admission keeps the group's invariant.
pub proof fn lemma_admit_step_wf<T>(v: GroupView<T>)
    requires
        v.wf(),
        v.thumb_todo.len() > 0,
    ensures
        v.images.contains_key(v.thumb_todo[0]),
        (GroupView { thumb_todo: v.thumb_todo.drop_first(), ..v }).wf(),
        (GroupView {
            in_flight: v.in_flight.insert(v.thumb_todo[0]),
            thumb_todo: v.thumb_todo.drop_first(),
            ..v
        }).wf(),
{
    let rest = v.thumb_todo.drop_first();
    assert forall|i: int| 0 <= i < rest.len() implies v.images.contains_key(#[trigger] rest[i]) by {
        assert(rest[i] == v.thumb_todo[i + 1]);
    }
    if v.pending is Some {
        lemma_pending_fits_same(v, GroupView { thumb_todo: rest, ..v }, v.pending->0);
        lemma_pending_fits_same(
            v,
            GroupView { in_flight: v.in_flight.insert(v.thumb_todo[0]), thumb_todo: rest, ..v },
            v.pending->0,
        );
    }
}

/// Taking the result of a finished job keeps the group's invariant, and
/// leaves the image in a state other than unknown.
pub proof fn lemma_recv_thumb_wf<T>(v: GroupView<T>, key: u64, outcome: R<Metadata>)
    requires
        v.wf(),
    ensures
        v.recv_thumb(key, outcome).wf(),
        v.in_flight.contains(key) ==> !(v.recv_thumb(key, outcome).images[key].state() is Unknown),
{
    let w = v.recv_thumb(key, outcome);
    if v.in_flight.contains(key) {
        v.images[key].lemma_with_state(outcome_state(outcome));
        assert forall|i: int| 0 <= i < w.cache_todo.len() implies w.images.contains_key(
            #[trigger] w.cache_todo[i],
        ) by {
            if outcome is Ok {
                if i > 0 {
                    assert(w.cache_todo[i] == v.cache_todo[i - 1]);
                }
            }
        }
        if w.pending is Some {
            let p = w.pending->0;
            assert(w.images[p.key] == v.images[p.key]);
            assert(w.level_refs(p.key, p.level as int) == v.level_refs(p.key, p.level as int));
            assert(w.pending_fits(p));
        }
    }
}

/// Resetting a group keeps its invariant.
pub proof fn lemma_reset_wf<T>(v: GroupView<T>)
    requires
        v.wf(),
    ensures
        v.reset().wf(),
{
    let w = v.reset();
    assert(w.images.dom() =~= v.images.dom());
    assert forall|k: u64| #[trigger] w.images.contains_key(k) implies w.images[k].wf() by {
        v.images[k].lemma_with_level(None);
    }
}

/// Whether a pending level change fits depends on the images and the tiles
/// alone.
pub proof fn lemma_pending_fits_same<T>(v: GroupView<T>, w: GroupView<T>, p: PendingView)
    requires
        v.images == w.images,
        v.tiles == w.tiles,
        v.pending_fits(p),
    ensures
        w.pending_fits(p),
{
    assert(w.level_refs(p.key, p.level as int) == v.level_refs(p.key, p.level as int));
}

/// What `missing_refs` holds: each reference once, none resident, all from
/// `refs`; and every address of `refs` is resident or among them.
pub proof fn lemma_missing_refs(refs: Seq<TileRef>, resident: Set<u64>)
    ensures
        missing_refs(refs, resident).no_duplicates(),
        forall|i: int|
            0 <= i < missing_refs(refs, resident).len() ==> !resident.contains(
                #[trigger] missing_refs(refs, resident)[i].0,
            ),
        forall|i: int|
            0 <= i < missing_refs(refs, resident).len() ==> addresses(refs).contains(
                #[trigger] missing_refs(refs, resident)[i].0,
            ),
        forall|a: u64| #[trigger]
            addresses(refs).contains(a) ==> resident.contains(a) || addresses(
                missing_refs(refs, resident),
            ).contains(a),
    decreases refs.len(),
{
    let out = missing_refs(refs, resident);
    if refs.len() > 0 {
        let front = refs.drop_last();
        let rest = missing_refs(front, resident);
        let t = refs.last();
        lemma_missing_refs(front, resident);
        assert forall|i: int| 0 <= i < out.len() implies addresses(refs).contains(
            #[trigger] out[i].0,
        ) by {
            if i < rest.len() {
                assert(addresses(front).contains(rest[i].0));
                let j = choose|j: int| 0 <= j < front.len() && #[trigger] front[j].0 == rest[i].0;
                assert(refs[j].0 == rest[i].0);
            } else {
                assert(refs[refs.len() - 1].0 == t.0);
            }
        }
        assert forall|a: u64| #[trigger] addresses(refs).contains(a) implies resident.contains(a)
            || addresses(out).contains(a) by {
            let j = choose|j: int| 0 <= j < refs.len() && #[trigger] refs[j].0 == a;
            if j < front.len() {
                assert(front[j].0 == a);
                assert(addresses(front).contains(a));
                if !resident.contains(a) {
                    let k = choose|k: int| 0 <= k < rest.len() && #[trigger] rest[k].0 == a;
                    assert(out[k].0 == a);
                }
            } else {
                if !resident.contains(a) && !addresses(rest).contains(a) {
                    assert(out[out.len() - 1].0 == a);
                } else if !resident.contains(a) {
                    let k = choose|k: int| 0 <= k < rest.len() && #[trigger] rest[k].0 == a;
                    assert(out[k].0 == a);
                }
            }
        }
        assert(out.no_duplicates()) by {
            if !(resident.contains(t.0) || addresses(rest).contains(t.0)) {
                assert forall|i: int, j: int| 0 <= i < out.len() && 0 <= j < out.len() && i != j implies out[i] != out[j] by {
                    if i < rest.len() && j < rest.len() {
                    } else if i < rest.len() {
                        assert(rest[i].0 != t.0);
                    } else {
                        assert(rest[j].0 != t.0);
                    }
                }
            }
        }
    }
}

/// Among references that do not repeat, an address occurs at one position.
pub proof fn lemma_position(refs: Seq<TileRef>, i: int)
    requires
        refs.no_duplicates(),
        0 <= i < refs.len(),
    ensures
        position(refs, refs[i].0) == i,
        addresses(refs).contains(refs[i].0),
{
    let j = position(refs, refs[i].0);
    assert(refs[i].0 == refs[i].0);
    assert(0 <= j < refs.len() && refs[j].0 == refs[i].0);
    if j != i {
        assert(refs[j] == refs[i]);
    }
}

/// The tiles that came in can be put in place one by one, the first last.
pub proof fn lemma_with_tiles_front<T>(tiles: Map<u64, T>, refs: Seq<TileRef>, loaded: Seq<T>)
    requires
        refs.no_duplicates(),
        refs.len() == loaded.len(),
        refs.len() > 0,
    ensures
        with_tiles(tiles, refs, loaded) == with_tiles(
            tiles,
            refs.drop_first(),
            loaded.drop_first(),
        ).insert(refs[0].0, loaded[0]),
{
    let tail = refs.drop_first();
    let lhs = with_tiles(tiles, refs, loaded);
    let rhs = with_tiles(tiles, tail, loaded.drop_first()).insert(refs[0].0, loaded[0]);
    lemma_position(refs, 0);
    assert forall|a: u64| lhs.contains_key(a) <==> rhs.contains_key(a) by {
        if addresses(refs).contains(a) {
            let j = choose|j: int| 0 <= j < refs.len() && #[trigger] refs[j].0 == a;
            if j > 0 {
                assert(tail[j - 1].0 == a);
            }
        }
        if addresses(tail).contains(a) {
            let j = choose|j: int| 0 <= j < tail.len() && #[trigger] tail[j].0 == a;
            assert(refs[j + 1].0 == a);
        }
    }
    assert forall|a: u64| lhs.contains_key(a) implies lhs[a] == rhs[a] by {
        if a != refs[0].0 && addresses(tail).contains(a) {
            let j = choose|j: int| 0 <= j < tail.len() && #[trigger] tail[j].0 == a;
            assert(refs[j + 1].0 == a);
            lemma_position(tail, j);
            lemma_position(refs, j + 1);
        } else if a != refs[0].0 {
            if addresses(refs).contains(a) {
                let j = choose|j: int| 0 <= j < refs.len() && #[trigger] refs[j].0 == a;
                assert(tail[j - 1].0 == a);
            }
        }
    }
    assert(lhs =~= rhs);
}

/// The addresses of a sequence with one more reference at its end.
pub proof fn lemma_addresses_push(front: Seq<TileRef>, t: TileRef)
    ensures
        addresses(front.push(t)) == addresses(front).insert(t.0),
{
    let refs = front.push(t);
    assert forall|a: u64| addresses(refs).contains(a) <==> addresses(front).insert(t.0).contains(
        a,
    ) by {
        if addresses(refs).contains(a) {
            let j = choose|j: int| 0 <= j < refs.len() && #[trigger] refs[j].0 == a;
            if j < front.len() {
                assert(front[j].0 == a);
            }
        }
        if addresses(front).contains(a) {
            let j = choose|j: int| 0 <= j < front.len() && #[trigger] front[j].0 == a;
            assert(refs[j].0 == a);
        }
        if a == t.0 {
            assert(refs[refs.len() - 1].0 == a);
        }
    }
    assert(addresses(refs) =~= addresses(front).insert(t.0));
}

/// The addresses of a sequence of tile references are finitely many.
pub proof fn lemma_addresses_finite(refs: Seq<TileRef>)
    ensures
        addresses(refs).finite(),
    decreases refs.len(),
{
    if refs.len() == 0 {
        assert(addresses(refs) =~= Set::<u64>::empty());
    } else {
        lemma_addresses_finite(refs.drop_last());
        lemma_addresses_push(refs.drop_last(), refs.last());
        assert(refs =~= refs.drop_last().push(refs.last()));
    }
}

/// The tiles of the other levels, level by level.
pub proof fn lemma_other_levels_step(m: Metadata, level: int, upto: int)
    requires
        0 <= upto < m.thumbs@.len(),
    ensures
        other_levels_before(m, level, 0) == Set::<u64>::empty(),
        upto != level ==> other_levels_before(m, level, upto + 1) == other_levels_before(
            m,
            level,
            upto,
        ).union(addresses(m.thumbs@[upto].tile_refs@)),
        upto == level ==> other_levels_before(m, level, upto + 1) == other_levels_before(
            m,
            level,
            upto,
        ),
        other_levels_before(m, level, m.thumbs@.len() as int) == other_levels(m, level),
{
    assert(other_levels_before(m, level, 0) =~= Set::<u64>::empty());
    assert(other_levels_before(m, level, m.thumbs@.len() as int) =~= other_levels(m, level));
    if upto != level {
        assert(other_levels_before(m, level, upto + 1) =~= other_levels_before(
            m,
            level,
            upto,
        ).union(addresses(m.thumbs@[upto].tile_refs@)));
    } else {
        assert(other_levels_before(m, level, upto + 1) =~= other_levels_before(m, level, upto));
    }
}

/// An increasing sequence is the ordered sequence of its elements.
pub proof fn lemma_ordered(keys: Seq<u64>)
    requires
        increasing(keys),
    ensures
        ordered(keys.to_set()) == keys,
{
    let s = ordered(keys.to_set());
    assert(increasing(s) && s.to_set() == keys.to_set());
    lemma_increasing_unique(s, keys);
}

} // verus!
