//! One group of the grid: its images, the tiles that are resident, the queue
//! of images whose cache is to be checked, the queue of thumbnail requests,
//! and the jobs in flight.
//!
//! The group does no I/O. Each operation takes what the caller read or
//! computed, changes the group's state, and says what the caller is to do next.
//! What each operation does is stated over the model in `group_view`.

use crate::btree::{increasing, keys_of, map_get_mut};
use crate::group_view::{
    addresses, effective_target, images_in_order, lemma_admission, lemma_admit_step_wf,
    lemma_addresses_push, lemma_decide_wf, lemma_insert_wf, lemma_ordered, lemma_other_levels_step,
    lemma_pending_fits_same, lemma_pop_check_wf, lemma_recv_thumb_wf, lemma_set_state_wf,
    lemma_tiles_loaded_wf, lemma_with_tiles_front, lookup_state, missing_refs, nearest_spec,
    ordered, other_levels_before, with_tiles, ActionView, GroupView, JobView, PendingView,
};
use crate::image::{Image, MetadataState, R};
use crate::metadata::{lemma_nearest_exists, lemma_nearest_is_unique, Metadata};
use crate::tile_ref::TileRef;
use crate::vec2::{coords_key, coords_key_spec, key_coords, vec2_add, vec2_max, vec2_min};
use std::collections::{BTreeMap, BTreeSet, VecDeque};
use vstd::arithmetic::div_mod::lemma_basic_div;
use vstd::arithmetic::power2::{lemma2_to64, lemma_pow2_strictly_increases, pow2};
use vstd::bits::lemma_u32_shr_is_div;
use vstd::prelude::*;
use vstd::std_specs::btree::group_btree_axioms;

verus! {

broadcast use group_btree_axioms;

/// How an image lies to the viewport: whether any of it is visible, and, for
/// one that is not, by how many whole viewport extents it lies outside.
#[derive(Debug, Clone, Copy, PartialEq, Eq)]
pub struct Visibility {
    pub visible: bool,
    pub excess: u32,
}

/// A level change that waits for its tiles.
#[derive(Debug)]
struct Pending {
    key: u64,
    level: usize,
    refs: Vec<TileRef>,
}

impl View for Pending {
    type V = PendingView;

    closed spec fn view(&self) -> PendingView {
        PendingView { key: self.key, level: self.level, refs: self.refs@ }
    }
}

/// A sparse collection of images, with the tiles that are loaded for them.
#[derive(Debug)]
pub struct Group<T> {
    min_extent: [u32; 2],
    max_extent: [u32; 2],
    tiles: BTreeMap<u64, T>,
    images: BTreeMap<u64, Image>,
    cache_todo: VecDeque<u64>,
    thumb_todo: VecDeque<u64>,
    thumb_handles: BTreeSet<u64>,
    pending: Option<Pending>,
}

/// A thumbnail job that the caller is to start: the image's coordinate, and
/// the sequence index from which the thumbnailer numbers the image's tiles.
#[derive(Debug, PartialEq, Eq)]
pub struct ThumbJob {
    pub coords: [u32; 2],
    pub tile_id_index: u64,
}

impl View for ThumbJob {
    type V = JobView;

    open spec fn view(&self) -> JobView {
        JobView { key: coords_key_spec(self.coords), tile_id_index: self.tile_id_index }
    }
}

/// The models of a sequence of jobs.
pub open spec fn job_views(jobs: Seq<ThumbJob>) -> Seq<JobView> {
    jobs.map_values(|j: ThumbJob| j@)
}

/// What the caller is to do next for a group.
#[derive(Debug, PartialEq, Eq)]
pub enum CacheAction {
    /// Nothing: the queue was empty, or the image needs no work now.
    Idle,
    /// Look up the stored metadata of the image at `coords`, and report it
    /// with `metadata_loaded`.
    Lookup { coords: [u32; 2] },
    /// Fetch and decode the tiles at `tile_refs`, in this order, and hand them
    /// over with `tiles_loaded`. They are the tiles of level `level` of the
    /// image at `coords` that are not resident.
    Fetch { coords: [u32; 2], level: usize, tile_refs: Vec<TileRef> },
}

impl View for CacheAction {
    type V = ActionView;

    open spec fn view(&self) -> ActionView {
        match *self {
            CacheAction::Idle => ActionView::Idle,
            CacheAction::Lookup { coords } => ActionView::Lookup { key: coords_key_spec(coords) },
            CacheAction::Fetch { coords, level, tile_refs } => ActionView::Fetch {
                key: coords_key_spec(coords),
                level,
                refs: tile_refs@,
            },
        }
    }
}

/// The target size that counts for an image.
fn effective_target_of(target: u32, vis: Visibility) -> (r: u32)
    ensures
        r == effective_target(target, vis),
{
    let shift: u32 = if vis.visible {
        0
    } else {
        vis.excess
    };
    if shift >= 32 {
        proof {
            lemma2_to64();
            if shift > 32 {
                lemma_pow2_strictly_increases(32, shift as nat);
            }
            lemma_basic_div(target as int, pow2(shift as nat) as int);
        }
        0
    } else {
        proof {
            lemma_u32_shr_is_div(target, shift);
        }
        target >> shift
    }
}

/// A copy of a list of tile references.
fn copy_refs(refs: &Vec<TileRef>) -> (out: Vec<TileRef>)
    ensures
        out@ == refs@,
{
    let mut out: Vec<TileRef> = Vec::new();
    let mut i: usize = 0;
    while i < refs.len()
        invariant
            i <= refs@.len(),
            out@ == refs@.take(i as int),
        decreases refs@.len() - i,
    {
        out.push(refs[i]);
        proof {
            assert(out@ =~= refs@.take(i + 1));
        }
        i = i + 1;
    }
    proof {
        assert(refs@.take(refs@.len() as int) =~= refs@);
    }
    out
}

/// The tile references of `refs` that are not resident in `tiles`, each once,
/// in the order in which they first occur.
fn missing<T>(tiles: &BTreeMap<u64, T>, refs: &Vec<TileRef>) -> (out: Vec<TileRef>)
    ensures
        out@ == missing_refs(refs@, tiles@.dom()),
{
    let mut out: Vec<TileRef> = Vec::new();
    let mut seen: BTreeSet<u64> = BTreeSet::new();
    let mut i: usize = 0;
    proof {
        assert(refs@.take(0) =~= Seq::<TileRef>::empty());
        assert(seen@ =~= addresses(out@));
    }
    while i < refs.len()
        invariant
            i <= refs@.len(),
            out@ == missing_refs(refs@.take(i as int), tiles@.dom()),
            seen@ == addresses(out@),
        decreases refs@.len() - i,
    {
        let t: TileRef = refs[i];
        proof {
            assert(refs@.take(i + 1).drop_last() =~= refs@.take(i as int));
            assert(refs@.take(i + 1).last() == t);
        }
        let resident: bool = tiles.contains_key(&t.0);
        let found: bool = seen.contains(&t.0);
        if !resident && !found {
            let ghost before = out@;
            out.push(t);
            seen.insert(t.0);
            proof {
                assert(out@[before.len() as int].0 == t.0);
                assert forall|a: u64| addresses(out@).contains(a) <==> addresses(before).insert(
                    t.0,
                ).contains(a) by {
                    if addresses(out@).contains(a) {
                        let j = choose|j: int| 0 <= j < out@.len() && #[trigger] out@[j].0 == a;
                        if j < before.len() {
                            assert(before[j].0 == a);
                        }
                    }
                    if addresses(before).contains(a) {
                        let j = choose|j: int| 0 <= j < before.len() && #[trigger] before[j].0 == a;
                        assert(out@[j].0 == a);
                    }
                }
                assert(seen@ =~= addresses(out@));
            }
        }
        i = i + 1;
    }
    proof {
        assert(refs@.take(refs@.len() as int) =~= refs@);
    }
    out
}

/// Removes from `tiles` every address of `refs`.
fn remove_all<T>(tiles: &mut BTreeMap<u64, T>, refs: &Vec<TileRef>)
    ensures
        final(tiles)@ == old(tiles)@.remove_keys(addresses(refs@)),
{
    let ghost start = tiles@;
    let mut i: usize = 0;
    proof {
        assert(addresses(refs@.take(0)) =~= Set::<u64>::empty());
        assert(tiles@ =~= start.remove_keys(addresses(refs@.take(0))));
    }
    while i < refs.len()
        invariant
            i <= refs@.len(),
            tiles@ == start.remove_keys(addresses(refs@.take(i as int))),
        decreases refs@.len() - i,
    {
        let a: u64 = refs[i].0;
        tiles.remove(&a);
        proof {
            lemma_addresses_push(refs@.take(i as int), refs@[i as int]);
            assert(refs@.take(i + 1) =~= refs@.take(i as int).push(refs@[i as int]));
            assert(tiles@ =~= start.remove_keys(addresses(refs@.take(i + 1))));
        }
        i = i + 1;
    }
    proof {
        assert(refs@.take(refs@.len() as int) =~= refs@);
    }
}

impl<T> View for Group<T> {
    type V = GroupView<T>;

    closed spec fn view(&self) -> GroupView<T> {
        GroupView {
            min_extent: (self.min_extent[0], self.min_extent[1]),
            max_extent: (self.max_extent[0], self.max_extent[1]),
            images: self.images@,
            tiles: self.tiles@,
            cache_todo: self.cache_todo@,
            thumb_todo: self.thumb_todo@,
            in_flight: self.thumb_handles@,
            pending: match self.pending {
                Some(p) => Some(p@),
                None => None,
            },
        }
    }
}

impl<T> Default for Group<T> {
    fn default() -> (r: Group<T>)
        ensures
            r.wf(),
            r@ == GroupView::<T>::empty(),
    {
        Group::new()
    }
}

impl<T> Group<T> {
    /// The invariant of the group, stated of its model.
    pub open spec fn wf(&self) -> bool {
        self@.wf()
    }

    /// Whether two groups differ in their resident tiles at most.
    spec fn same_but_tiles(&self, other: &Group<T>) -> bool {
        self@ == (GroupView { tiles: self@.tiles, ..other@ })
    }

    /// A group with no image, no tile and nothing queued.
    pub fn new() -> (r: Group<T>)
        ensures
            r.wf(),
            r@ == GroupView::<T>::empty(),
    {
        Group {
            min_extent: [0, 0],
            max_extent: [0, 0],
            tiles: BTreeMap::new(),
            images: BTreeMap::new(),
            cache_todo: VecDeque::new(),
            thumb_todo: VecDeque::new(),
            thumb_handles: BTreeSet::new(),
            pending: None,
        }
    }

    /// Decides what is to be done for the image under `key`, which the group
    /// must hold.
    fn decide(&mut self, key: u64, target_size: u32, vis: Visibility) -> (action: CacheAction)
        requires
            old(self).wf(),
            old(self)@.images.contains_key(key),
        ensures
            final(self).wf(),
            final(self)@ == old(self)@.decide(key, target_size, vis).0,
            action@ == old(self)@.decide(key, target_size, vis).1,
    {
        proof {
            lemma_decide_wf(old(self)@, key, target_size, vis);
        }
        self.pending = None;
        let img: &Image = match self.images.get(&key) {
            Some(img) => img,
            None => {
                return CacheAction::Idle;
            },
        };
        match img.metadata() {
            MetadataState::Missing => {
                self.thumb_todo.push_back(key);
                CacheAction::Idle
            },
            MetadataState::Loaded(m) => {
                if m.thumbs.len() == 0 {
                    return CacheAction::Idle;
                }
                let target: u32 = effective_target_of(target_size, vis);
                let near: usize = m.nearest(target);
                proof {
                    lemma_nearest_exists(*m, target);
                    lemma_nearest_is_unique(*m, target, near as int, nearest_spec(*m, target));
                }
                let current: usize = match img.size() {
                    Some(k) => k,
                    None => 0,
                };
                if near == current {
                    return CacheAction::Idle;
                }
                let level: usize = if near < current {
                    current - 1
                } else {
                    current + 1
                };
                let refs: Vec<TileRef> = missing(&self.tiles, &m.thumbs[level].tile_refs);
                let tile_refs: Vec<TileRef> = copy_refs(&refs);
                self.pending = Some(Pending { key, level, refs });
                CacheAction::Fetch { coords: key_coords(key), level, tile_refs }
            },
            _ => CacheAction::Idle,
        }
    }

    /// Checks the cache of the image at the front of the check queue.
    ///
    /// `vis` says how that image lies to the viewport. A level change that
    /// still waited for its tiles is given up. The image leaves the queue.
    /// Where nothing is known of it, the caller is asked to look its metadata
    /// up. A missing image is queued for generation, an errored one is left
    /// alone. A loaded image that is not at the level nearest to its
    /// effective target size starts moving one level towards it: the caller
    /// is asked to fetch the tiles of that level which are not resident.
    pub fn load_cache(&mut self, target_size: u32, vis: Visibility) -> (action: CacheAction)
        requires
            old(self).wf(),
        ensures
            final(self).wf(),
            final(self)@ == old(self)@.load_cache(target_size, vis).0,
            action@ == old(self)@.load_cache(target_size, vis).1,
    {
        self.pending = None;
        match self.cache_todo.pop_front() {
            None => CacheAction::Idle,
            Some(key) => {
                assert(old(self)@.cache_todo[0] == key);
                let unknown: bool = match self.images.get(&key) {
                    Some(img) => match img.metadata() {
                        MetadataState::Unknown => true,
                        _ => false,
                    },
                    None => false,
                };
                proof {
                    lemma_pop_check_wf(old(self)@);
                    assert(self@.cache_todo =~= old(self)@.cache_todo.drop_first());
                    assert(self@ =~= (GroupView {
                        cache_todo: old(self)@.cache_todo.drop_first(),
                        pending: None,
                        ..old(self)@
                    }));
                }
                if unknown {
                    CacheAction::Lookup { coords: key_coords(key) }
                } else {
                    self.decide(key, target_size, vis)
                }
            },
        }
    }

    /// Takes the result of the metadata lookup for the image at `coords`.
    ///
    /// Where the group holds such an image and knows nothing of it yet, the
    /// image becomes loaded, missing or errored, as the lookup found metadata,
    /// found none or failed, and the decision on it is made as in `load_cache`.
    /// Otherwise nothing changes.
    pub fn metadata_loaded(
        &mut self,
        coords: [u32; 2],
        found: R<Option<Metadata>>,
        target_size: u32,
        vis: Visibility,
    ) -> (action: CacheAction)
        requires
            old(self).wf(),
        ensures
            final(self).wf(),
            final(self)@ == old(self)@.metadata_loaded(
                coords_key_spec(coords),
                lookup_state(found),
                target_size,
                vis,
            ).0,
            action@ == old(self)@.metadata_loaded(
                coords_key_spec(coords),
                lookup_state(found),
                target_size,
                vis,
            ).1,
    {
        let key: u64 = coords_key(coords);
        let state: MetadataState = match found {
            Ok(Some(m)) => MetadataState::Loaded(m),
            Ok(None) => MetadataState::Missing,
            Err(_) => MetadataState::Errored,
        };
        let updated: bool = match map_get_mut(&mut self.images, key) {
            Some(img) => {
                let unknown: bool = match img.metadata() {
                    MetadataState::Unknown => true,
                    _ => false,
                };
                if unknown {
                    img.set_state(state);
                }
                unknown
            },
            None => false,
        };
        if updated {
            self.pending = None;
            proof {
                lemma_set_state_wf(old(self)@, key, state);
                assert(self@ =~= (GroupView {
                    images: old(self)@.images.insert(key, old(self)@.images[key].with_state(state)),
                    pending: None,
                    ..old(self)@
                }));
            }
            self.decide(key, target_size, vis)
        } else {
            proof {
                assert(self@.images =~= old(self)@.images);
                assert(self@ =~= old(self)@);
            }
            CacheAction::Idle
        }
    }

    /// Takes the tiles that were fetched for the pending level change, in the
    /// order in which they were asked for.
    ///
    /// They are taken where a level change is pending and as many tiles came
    /// as were asked for; the result says whether they were. Then each tile is
    /// resident under the address it was fetched for, every tile of the
    /// image's other levels is evicted, the image is at the new level, and it
    /// is queued again so that later passes take it further. Otherwise
    /// nothing changes.
    #[verifier::loop_isolation(false)]
    pub fn tiles_loaded(&mut self, tiles: Vec<T>) -> (done: bool)
        requires
            old(self).wf(),
        ensures
            final(self).wf(),
            final(self)@ == old(self)@.tiles_loaded(tiles@).0,
            done == old(self)@.tiles_loaded(tiles@).1,
    {
        proof {
            lemma_tiles_loaded_wf(old(self)@, tiles@);
        }
        let p: Pending = match self.pending.take() {
            Some(p) => p,
            None => {
                assert(self@ =~= old(self)@);
                return false;
            },
        };
        if p.refs.len() != tiles.len() {
            self.pending = Some(p);
            assert(self@ =~= old(self)@);
            return false;
        }
        let ghost start = *self;
        let ghost base = self.tiles@;
        let ghost refs = p.refs@;
        let mut rest: Vec<T> = tiles;
        let mut n: usize = rest.len();
        proof {
            assert(refs.skip(n as int) =~= Seq::<TileRef>::empty());
            assert(addresses(Seq::<TileRef>::empty()) =~= Set::<u64>::empty());
            assert(self.tiles@ =~= with_tiles(base, refs.skip(n as int), tiles@.skip(n as int)));
        }
        while n > 0
            invariant
                n <= refs.len(),
                refs == p.refs@,
                refs.len() == tiles@.len(),
                refs.no_duplicates(),
                rest@ == tiles@.take(n as int),
                self.tiles@ == with_tiles(base, refs.skip(n as int), tiles@.skip(n as int)),
                self.same_but_tiles(&start),
            decreases n,
        {
            n = n - 1;
            let tile: T = match rest.pop() {
                Some(tile) => tile,
                None => {
                    proof {
                        assert(false);
                    }
                    return false;
                },
            };
            self.tiles.insert(p.refs[n].0, tile);
            proof {
                assert(refs.skip(n as int).drop_first() =~= refs.skip(n + 1));
                assert(tiles@.skip(n as int).drop_first() =~= tiles@.skip(n + 1));
                lemma_with_tiles_front(base, refs.skip(n as int), tiles@.skip(n as int));
                assert(rest@ =~= tiles@.take(n as int));
            }
        }
        proof {
            assert(refs.skip(0) =~= refs);
            assert(tiles@.skip(0) =~= tiles@);
        }
        let ghost inserted = self.tiles@;
        let img: &Image = match self.images.get(&p.key) {
            Some(img) => img,
            None => {
                proof {
                    assert(false);
                }
                return false;
            },
        };
        let m: &Metadata = match img.metadata() {
            MetadataState::Loaded(m) => m,
            _ => {
                proof {
                    assert(false);
                }
                return false;
            },
        };
        let mut j: usize = 0;
        proof {
            lemma_other_levels_step(*m, p.level as int, 0);
            assert(self.tiles@ =~= inserted.remove_keys(other_levels_before(*m, p.level as int, 0)));
        }
        while j < m.thumbs.len()
            invariant
                j <= m.thumbs@.len(),
                p.level < m.thumbs@.len(),
                self.tiles@ == inserted.remove_keys(other_levels_before(*m, p.level as int, j as int)),
                self.same_but_tiles(&start),
            decreases m.thumbs@.len() - j,
        {
            proof {
                lemma_other_levels_step(*m, p.level as int, j as int);
            }
            if j != p.level {
                remove_all(&mut self.tiles, &m.thumbs[j].tile_refs);
                proof {
                    assert(self.tiles@ =~= inserted.remove_keys(
                        other_levels_before(*m, p.level as int, j + 1),
                    ));
                }
            }
            j = j + 1;
        }
        proof {
            lemma_other_levels_step(*m, p.level as int, 0);
        }
        match map_get_mut(&mut self.images, p.key) {
            Some(img) => {
                img.set_level(p.level);
            },
            None => {},
        }
        self.cache_todo.push_back(p.key);
        proof {
            let w = old(self)@.tiles_loaded(tiles@).0;
            assert(old(self)@.pending == Some(p@));
            assert(old(self)@.tiles_loaded(tiles@).1);
            assert(self@.pending == w.pending);
            assert(self@.cache_todo =~= w.cache_todo);
            assert(self@.images =~= w.images);
            assert(self@.tiles =~= w.tiles);
            assert(self@ =~= w);
        }
        true
    }

    /// Admits thumbnail requests as jobs, and returns the jobs that the caller
    /// is to start, in order.
    ///
    /// Requests are taken from the front of the queue while at most one job
    /// is in flight. A request becomes a job where its image is missing and
    /// has no job in flight; any other request is dropped. Each job is in
    /// flight until its result is handed to `recv_thumb`.
    pub fn make_thumbs(&mut self, base_id: u64) -> (jobs: Vec<ThumbJob>)
        requires
            old(self).wf(),
        ensures
            final(self).wf(),
            final(self)@ == old(self)@.make_thumbs(base_id).0,
            job_views(jobs@) == old(self)@.make_thumbs(base_id).1,
    {
        let mut jobs: Vec<ThumbJob> = Vec::new();
        let mut more: bool = true;
        proof {
            lemma_admission(old(self)@, base_id);
            assert(job_views(jobs@) + self@.make_thumbs(base_id).1 =~= self@.make_thumbs(base_id).1);
        }
        while more
            invariant
                self.wf(),
                old(self)@.make_thumbs(base_id).0 == self@.make_thumbs(base_id).0,
                old(self)@.make_thumbs(base_id).1 == job_views(jobs@) + self@.make_thumbs(base_id).1,
                !more ==> self@.make_thumbs(base_id).0 == self@ && self@.make_thumbs(base_id).1
                    == Seq::<JobView>::empty(),
            decreases
                    self@.thumb_todo.len() + if more {
                        1nat
                    } else {
                        0nat
                    },
        {
            if self.thumb_handles.len() > 1 {
                more = false;
            } else {
                let ghost before = self@;
                match self.thumb_todo.pop_front() {
                    None => {
                        more = false;
                    },
                    Some(key) => {
                        let admitted: Option<usize> = match self.images.get(&key) {
                            Some(img) => if img.is_missing() && !self.thumb_handles.contains(&key) {
                                Some(img.i())
                            } else {
                                None
                            },
                            None => None,
                        };
                        proof {
                            assert(before.thumb_todo[0] == key);
                            assert(self@.thumb_todo =~= before.thumb_todo.drop_first());
                        }
                        match admitted {
                            Some(i) => {
                                self.thumb_handles.insert(key);
                                let ghost prior = jobs@;
                                let job = ThumbJob {
                                    coords: key_coords(key),
                                    tile_id_index: base_id.wrapping_add(i as u64),
                                };
                                jobs.push(job);
                                proof {
                                    let next = GroupView {
                                        in_flight: before.in_flight.insert(key),
                                        thumb_todo: before.thumb_todo.drop_first(),
                                        ..before
                                    };
                                    assert(self@ =~= next);
                                    assert(job@ == before.job(key, base_id));
                                    assert(job_views(jobs@) =~= job_views(prior).push(job@));
                                    assert(job_views(prior) + (seq![before.job(key, base_id)]
                                        + next.make_thumbs(base_id).1) =~= job_views(jobs@)
                                        + next.make_thumbs(base_id).1);
                                    lemma_admit_step_wf(before);
                                }
                            },
                            None => {
                                proof {
                                    let rest = GroupView {
                                        thumb_todo: before.thumb_todo.drop_first(),
                                        ..before
                                    };
                                    assert(self@ =~= rest);
                                    lemma_admit_step_wf(before);
                                }
                            },
                        }
                    },
                }
            }
        }
        proof {
            assert(job_views(jobs@) + Seq::<JobView>::empty() =~= job_views(jobs@));
        }
        jobs
    }

    /// Takes the result of the generation job of the image at `coords`.
    ///
    /// Where such a job is in flight, it no longer is; the image becomes
    /// loaded with the metadata that the job produced, and goes to the front
    /// of the check queue, or becomes errored where the job failed. The
    /// result says whether a job was in flight. Otherwise nothing changes.
    pub fn recv_thumb(&mut self, coords: [u32; 2], outcome: R<Metadata>) -> (taken: bool)
        requires
            old(self).wf(),
        ensures
            final(self).wf(),
            final(self)@ == old(self)@.recv_thumb(coords_key_spec(coords), outcome),
            taken == old(self)@.in_flight.contains(coords_key_spec(coords)),
    {
        let key: u64 = coords_key(coords);
        proof {
            lemma_recv_thumb_wf(old(self)@, key, outcome);
        }
        if !self.thumb_handles.remove(&key) {
            assert(self@ =~= old(self)@);
            return false;
        }
        let state: MetadataState = match outcome {
            Ok(m) => {
                self.cache_todo.push_front(key);
                MetadataState::Loaded(m)
            },
            Err(_) => MetadataState::Errored,
        };
        match map_get_mut(&mut self.images, key) {
            Some(img) => {
                img.set_state(state);
            },
            None => {},
        }
        let same: bool = match &self.pending {
            Some(p) => p.key == key,
            None => false,
        };
        if same {
            self.pending = None;
        }
        assert(self@ =~= old(self)@.recv_thumb(key, outcome));
        true
    }

    /// Queues every image of the group for a cache check, in the order of
    /// their coordinates, in place of what was queued. The thumbnail requests
    /// are dropped: a check queues them again where they are still due.
    pub fn recheck(&mut self)
        requires
            old(self).wf(),
        ensures
            final(self).wf(),
            final(self)@ == old(self)@.recheck(),
            increasing(final(self)@.cache_todo),
            final(self)@.cache_todo.to_set() == old(self)@.images.dom(),
    {
        self.thumb_todo.clear();
        self.cache_todo.clear();
        let keys: Vec<u64> = keys_of(&self.images);
        let mut i: usize = 0;
        while i < keys.len()
            invariant
                i <= keys@.len(),
                self.cache_todo@ == keys@.take(i as int),
                self@ == (GroupView {
                    cache_todo: self@.cache_todo,
                    thumb_todo: Seq::empty(),
                    ..old(self)@
                }),
            decreases keys@.len() - i,
        {
            self.cache_todo.push_back(keys[i]);
            proof {
                assert(self.cache_todo@ =~= keys@.take(i + 1));
            }
            i = i + 1;
        }
        proof {
            assert(keys@.take(keys@.len() as int) =~= keys@);
            assert forall|i: int| 0 <= i < self@.cache_todo.len() implies self@.images.contains_key(
                #[trigger] self@.cache_todo[i],
            ) by {
                assert(keys@.to_set().contains(keys@[i]));
            }
            if self@.pending is Some {
                lemma_pending_fits_same(old(self)@, self@, self@.pending->0);
            }
            lemma_ordered(keys@);
        }
    }

    /// Forgets what is loaded: no image has a level loaded, no tile is
    /// resident, both queues are empty and no level change is pending. The
    /// jobs in flight stay; their results are still taken when they come.
    pub fn reset(&mut self)
        requires
            old(self).wf(),
        ensures
            final(self).wf(),
            final(self)@ == old(self)@.reset(),
    {
        let keys: Vec<u64> = keys_of(&self.images);
        let mut i: usize = 0;
        while i < keys.len()
            invariant
                i <= keys@.len(),
                keys@.to_set() == old(self)@.images.dom(),
                keys@.no_duplicates(),
                self@ == (GroupView { images: self@.images, ..old(self)@ }),
                self@.images.dom() == old(self)@.images.dom(),
                forall|j: int|
                    0 <= j < i ==> self@.images[#[trigger] keys@[j]] == old(self)@.images[keys@[j]].with_level(
                        None,
                    ),
                forall|j: int|
                    i <= j < keys@.len() ==> self@.images[#[trigger] keys@[j]] == old(self)@.images[keys@[j]],
            decreases keys@.len() - i,
        {
            let ghost before = self@.images;
            match map_get_mut(&mut self.images, keys[i]) {
                Some(img) => {
                    img.reset();
                },
                None => {},
            }
            proof {
                assert(keys@.to_set().contains(keys@[i as int]));
                assert(self@.images.dom() =~= old(self)@.images.dom());
                assert forall|j: int| 0 <= j < i + 1 implies self@.images[#[trigger] keys@[j]] == old(self)@.images[keys@[j]].with_level(None) by {
                    if j < i {
                        assert(before[keys@[j]] == old(self)@.images[keys@[j]].with_level(None));
                    }
                }
                assert forall|j: int| i + 1 <= j < keys@.len() implies self@.images[#[trigger] keys@[j]]
                    == old(self)@.images[keys@[j]] by {
                    assert(before[keys@[j]] == old(self)@.images[keys@[j]]);
                }
            }
            i = i + 1;
        }
        self.tiles.clear();
        self.thumb_todo.clear();
        self.cache_todo.clear();
        self.pending = None;
        proof {
            let w = old(self)@.reset();
            assert forall|k: u64| w.images.contains_key(k) implies self@.images[k] == w.images[k] by {
                assert(keys@.to_set().contains(k));
                let j = choose|j: int| 0 <= j < keys@.len() && keys@[j] == k;
                assert(self@.images[keys@[j]] == old(self)@.images[keys@[j]].with_level(None));
            }
            assert(self@.images =~= w.images);
            assert(self@ =~= w);
            assert forall|k: u64| #[trigger] w.images.contains_key(k) implies w.images[k].wf() by {
                old(self)@.images[k].lemma_with_level(None);
            }
        }
    }

    /// The image at a coordinate, if the group holds one there.
    pub fn image(&self, coords: [u32; 2]) -> (r: Option<&Image>)
        ensures
            match r {
                Some(img) => self@.images.contains_key(coords_key_spec(coords)) && *img
                    == self@.images[coords_key_spec(coords)],
                None => !self@.images.contains_key(coords_key_spec(coords)),
            },
    {
        let key: u64 = coords_key(coords);
        self.images.get(&key)
    }

    /// The resident tile at an address, if there is one.
    pub fn tile(&self, tile_ref: TileRef) -> (r: Option<&T>)
        ensures
            match r {
                Some(t) => self@.tiles.contains_key(tile_ref.0) && *t == self@.tiles[tile_ref.0],
                None => !self@.tiles.contains_key(tile_ref.0),
            },
    {
        self.tiles.get(&tile_ref.0)
    }

    /// The coordinates at which the group holds an image, in order.
    pub fn coords(&self) -> (out: Vec<[u32; 2]>)
        ensures
            out@.len() == ordered(self@.images.dom()).len(),
            forall|i: int|
                0 <= i < out@.len() ==> coords_key_spec(#[trigger] out@[i]) == ordered(
                    self@.images.dom(),
                )[i],
    {
        let keys: Vec<u64> = keys_of(&self.images);
        let mut out: Vec<[u32; 2]> = Vec::new();
        let mut i: usize = 0;
        while i < keys.len()
            invariant
                i <= keys@.len(),
                out@.len() == i,
                forall|j: int| 0 <= j < i ==> coords_key_spec(#[trigger] out@[j]) == keys@[j],
            decreases keys@.len() - i,
        {
            out.push(key_coords(keys[i]));
            i = i + 1;
        }
        proof {
            lemma_ordered(keys@);
        }
        out
    }

    /// The coordinate at the front of the check queue, if the queue holds any.
    pub fn next_check(&self) -> (r: Option<[u32; 2]>)
        ensures
            match r {
                Some(c) => self@.cache_todo.len() > 0 && coords_key_spec(c) == self@.cache_todo[0],
                None => self@.cache_todo.len() == 0,
            },
    {
        if self.cache_todo.len() > 0 {
            Some(key_coords(self.cache_todo[0]))
        } else {
            None
        }
    }

    /// How many images wait for a cache check.
    pub fn cache_todo_len(&self) -> (n: usize)
        ensures
            n == self@.cache_todo.len(),
    {
        self.cache_todo.len()
    }

    /// How many thumbnail requests wait for admission.
    pub fn thumb_todo_len(&self) -> (n: usize)
        ensures
            n == self@.thumb_todo.len(),
    {
        self.thumb_todo.len()
    }

    /// How many generation jobs are in flight.
    pub fn thumb_handles_len(&self) -> (n: usize)
        ensures
            n == self@.in_flight.len(),
    {
        self.thumb_handles.len()
    }

    /// Whether a generation job is in flight for the image at a coordinate.
    pub fn is_in_flight(&self, coords: [u32; 2]) -> (r: bool)
        ensures
            r == self@.in_flight.contains(coords_key_spec(coords)),
    {
        let key: u64 = coords_key(coords);
        self.thumb_handles.contains(&key)
    }

    /// The least coordinates of the group's images, component by component,
    /// and never more than 0.
    pub fn min_extent(&self) -> (r: [u32; 2])
        ensures
            (r[0], r[1]) == self@.min_extent,
    {
        self.min_extent
    }

    /// One more than the greatest coordinates of the group's images,
    /// component by component.
    pub fn max_extent(&self) -> (r: [u32; 2])
        ensures
            (r[0], r[1]) == self@.max_extent,
    {
        self.max_extent
    }

    /// Takes the group apart into its images, in the order of their
    /// coordinates.
    pub fn into_images(self) -> (out: Vec<Image>)
        requires
            self.wf(),
        ensures
            out@ == images_in_order(self@),
            forall|i: int|
                0 <= i < out@.len() ==> (#[trigger] out@[i]).wf() && self@.images.contains_key(
                    ordered(self@.images.dom())[i],
                ),
    {
        let mut group = self;
        let keys: Vec<u64> = keys_of(&group.images);
        let mut out: Vec<Image> = Vec::new();
        let mut i: usize = 0;
        while i < keys.len()
            invariant
                i <= keys@.len(),
                keys@.no_duplicates(),
                keys@.to_set() == self@.images.dom(),
                self.wf(),
                out@ == keys@.take(i as int).map_values(|k: u64| self@.images[k]),
                forall|j: int|
                    i <= j < keys@.len() ==> group.images@.contains_key(#[trigger] keys@[j])
                        && group.images@[keys@[j]] == self@.images[keys@[j]],
            decreases keys@.len() - i,
        {
            proof {
                assert(keys@.to_set().contains(keys@[i as int]));
            }
            match group.images.remove(&keys[i]) {
                Some(img) => {
                    out.push(img);
                },
                None => {},
            }
            proof {
                assert(out@ =~= keys@.take(i + 1).map_values(|k: u64| self@.images[k]));
            }
            i = i + 1;
        }
        proof {
            assert(keys@.take(keys@.len() as int) =~= keys@);
            lemma_ordered(keys@);
            assert forall|i: int| 0 <= i < out@.len() implies (#[trigger] out@[i]).wf()
                && self@.images.contains_key(ordered(self@.images.dom())[i]) by {
                assert(keys@.to_set().contains(keys@[i]));
            }
        }
        out
    }

    /// Puts an image under a coordinate, in place of the one that was there.
    /// Neither component of the coordinate may be `u32::MAX`, so that the
    /// extent beyond it exists.
    pub fn insert(&mut self, coords: [u32; 2], image: Image)
        requires
            old(self).wf(),
            image.wf(),
            coords[0] < u32::MAX,
            coords[1] < u32::MAX,
        ensures
            final(self).wf(),
            final(self)@ == old(self)@.insert(coords[0], coords[1], image),
    {
        let key: u64 = coords_key(coords);
        self.min_extent = vec2_min(self.min_extent, coords);
        self.max_extent = vec2_max(self.max_extent, vec2_add(coords, [1, 1]));
        self.images.insert(key, image);
        let same: bool = match &self.pending {
            Some(p) => p.key == key,
            None => false,
        };
        if same {
            self.pending = None;
        }
        proof {
            lemma_insert_wf(old(self)@, coords[0], coords[1], image);
        }
        assert(final(self)@ =~= old(self)@.insert(coords[0], coords[1], image));
    }
}

} // verus!
