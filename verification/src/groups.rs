//! The partition of the images into groups: each image lies in the grid cell
//! that its sequence number gives, and each group owns a block of cells.

use crate::bits::{
    bit_length, bit_length_u32, lemma_bit_length_bounds, lemma_bit_length_u32_bound,
};
use crate::btree::{keys_of, map_get_mut};
use crate::group::Group;
use crate::group_view::{images_in_order, lemma_insert_wf, lemma_ordered, ordered, GroupView};
use crate::image::Image;
use crate::vec2::{coords_key, coords_key_spec, i2c, key_coords, pair_key, vec2_div, vec2_max};
use std::collections::BTreeMap;
use vstd::arithmetic::power2::pow2;
use vstd::prelude::*;
use vstd::std_specs::btree::group_btree_axioms;

verus! {

broadcast use group_btree_axioms;

/// The model of the partition. Group coordinates appear as keys (see
/// `pair_key`).
#[verifier::ext_equal]
pub struct GroupsView<T> {
    /// The width and the height of the grid, in cells.
    pub grid_size: (u32, u32),
    /// The width and the height of a group, in cells.
    pub group_size: (u32, u32),
    /// The groups, by group coordinate.
    pub groups: Map<u64, GroupView<T>>,
}

/// The images of a collection, in groups of grid cells.
#[derive(Debug)]
pub struct Groups<T> {
    grid_size: [u32; 2],
    group_size: [u32; 2],
    groups: BTreeMap<u64, Group<T>>,
}

/// The column of image number `i` in a grid `width` cells wide.
pub open spec fn column(i: usize, width: u32) -> u32 {
    (i as int % width as int) as u32
}

/// The row of image number `i` in a grid `width` cells wide, modulo 2^32.
pub open spec fn row(i: usize, width: u32) -> u32 {
    ((i as int / width as int) % 0x1_0000_0000) as u32
}

/// The extent of a group along an axis on which the grid has `cells` cells:
/// the base-2 logarithm of `cells`, rounded down, and at least 1.
pub open spec fn group_extent(cells: u32) -> u32 {
    if bit_length(cells as nat) <= 2 {
        1
    } else {
        (bit_length(cells as nat) - 1) as u32
    }
}

/// The base-2 logarithm of `cells`, rounded down, and 0 for 0.
fn floor_log2(cells: u32) -> (r: u32)
    ensures
        r == if cells == 0 {
            0
        } else {
            bit_length(cells as nat) - 1
        },
{
    let bits: u32 = bit_length_u32(cells);
    if bits == 0 {
        0
    } else {
        bits - 1
    }
}

/// A group's extent is the exponent of the largest power of two that is at
/// most the number of cells, where that exponent is not 0.
pub proof fn lemma_group_extent(cells: u32)
    ensures
        group_extent(cells) >= 1,
        cells >= 2 ==> pow2(group_extent(cells) as nat) <= cells < pow2(
            (group_extent(cells) + 1) as nat,
        ),
        cells < 2 ==> group_extent(cells) == 1,
{
    lemma_bit_length_u32_bound(cells);
    if cells >= 1 {
        lemma_bit_length_bounds(cells as nat);
    }
    if cells >= 2 {
        assert(bit_length(cells as nat) == 1 + bit_length((cells / 2) as nat));
        assert(bit_length((cells / 2) as nat) >= 1);
    } else if cells == 1 {
        assert(bit_length(1) == 1 + bit_length(0));
    }
}

/// Whether an image can be placed in a grid `width` cells wide: it is well
/// formed, and its row lies below `u32::MAX`.
pub open spec fn placeable(image: Image, width: u32) -> bool {
    &&& image.wf()
    &&& width > 0
    &&& (image.index() as int) / (width as int) < u32::MAX as int
}

impl<T> GroupsView<T> {
    /// The partition of no image.
    pub open spec fn empty(grid_size: (u32, u32), group_size: (u32, u32)) -> GroupsView<T> {
        GroupsView { grid_size, group_size, groups: Map::empty() }
    }

    /// The key of the group that owns the cell `(x, y)`.
    pub open spec fn group_key(self, x: u32, y: u32) -> u64 {
        pair_key(x / self.group_size.0, y / self.group_size.1)
    }

    /// The key of the cell of an image.
    pub open spec fn cell_key(self, image: Image) -> u64 {
        pair_key(column(image.index(), self.grid_size.0), row(image.index(), self.grid_size.0))
    }

    /// Whether the partition holds an image: in the cell that the image's
    /// sequence number gives, in the group that owns the cell.
    pub open spec fn holds(self, image: Image) -> bool {
        let x = column(image.index(), self.grid_size.0);
        let y = row(image.index(), self.grid_size.0);
        let k = self.group_key(x, y);
        &&& self.groups.contains_key(k)
        &&& self.groups[k].images.contains_key(pair_key(x, y))
        &&& self.groups[k].images[pair_key(x, y)] == image
    }

    /// The invariant of the partition: the grid and the groups have a width,
    /// the groups have a height, and every group is well formed.
    pub open spec fn wf(self) -> bool {
        &&& self.grid_size.0 > 0
        &&& self.group_size.0 > 0
        &&& self.group_size.1 > 0
        &&& self.groups.dom().finite()
        &&& forall|k: u64| #[trigger] self.groups.contains_key(k) ==> self.groups[k].wf()
    }

    /// The partition with one more image: the image goes to the cell that its
    /// sequence number gives, in the group that owns the cell, which is made
    /// if it is not there.
    pub open spec fn insert(self, image: Image) -> GroupsView<T> {
        let x = column(image.index(), self.grid_size.0);
        let y = row(image.index(), self.grid_size.0);
        let k = self.group_key(x, y);
        let group = if self.groups.contains_key(k) {
            self.groups[k]
        } else {
            GroupView::empty()
        };
        GroupsView { groups: self.groups.insert(k, group.insert(x, y, image)), ..self }
    }

    /// The images of the groups under the keys `keys`, group after group, each
    /// group's in the order of their coordinates.
    pub open spec fn images_of(self, keys: Seq<u64>) -> Seq<Image>
        decreases keys.len(),
    {
        if keys.len() == 0 {
            Seq::empty()
        } else {
            self.images_of(keys.drop_last()) + images_in_order(self.groups[keys.last()])
        }
    }

    /// All images of the partition: group after group in the order of the
    /// group coordinates, each group's in the order of their coordinates.
    pub open spec fn all_images(self) -> Seq<Image> {
        self.images_of(ordered(self.groups.dom()))
    }

    /// Whether every image of the partition can be placed in a grid `width`
    /// cells wide.
    pub open spec fn all_placeable(self, width: u32) -> bool {
        forall|g: u64, k: u64|
            self.groups.contains_key(g) && #[trigger] self.groups[g].images.contains_key(k)
                ==> placeable(self.groups[g].images[k], width)
    }

    /// The partition of the same images over another grid: they are put, in
    /// the order of `all_images`, into a partition that starts empty.
    pub open spec fn regroup(self, grid_size: (u32, u32), group_size: (u32, u32)) -> GroupsView<T> {
        GroupsView::<T>::empty(grid_size, group_size).insert_all(self.all_images())
    }

    /// The partition with every group reset.
    pub open spec fn reset(self) -> GroupsView<T> {
        GroupsView { groups: self.groups.map_values(|g: GroupView<T>| g.reset()), ..self }
    }

    /// The partition with every image of every group queued for a cache check.
    pub open spec fn recheck(self) -> GroupsView<T> {
        GroupsView { groups: self.groups.map_values(|g: GroupView<T>| g.recheck()), ..self }
    }

    /// The partition with the images of a sequence put in, one after the other.
    pub open spec fn insert_all(self, images: Seq<Image>) -> GroupsView<T>
        decreases images.len(),
    {
        if images.len() == 0 {
            self
        } else {
            self.insert_all(images.drop_last()).insert(images.last())
        }
    }
}

/// Putting a placeable image into a partition keeps the partition's
/// invariant, and the image is then found in the cell of its sequence number,
/// in the group that owns the cell.
pub proof fn lemma_insert_places<T>(v: GroupsView<T>, image: Image)
    requires
        v.wf(),
        image.wf(),
    ensures
        v.insert(image).wf(),
        ({
            let x = column(image.index(), v.grid_size.0);
            let y = row(image.index(), v.grid_size.0);
            let k = v.group_key(x, y);
            &&& v.insert(image).groups.contains_key(k)
            &&& v.insert(image).groups[k].images.contains_key(pair_key(x, y))
            &&& v.insert(image).groups[k].images[pair_key(x, y)] == image
        }),
{
    let x = column(image.index(), v.grid_size.0);
    let y = row(image.index(), v.grid_size.0);
    let k = v.group_key(x, y);
    let group = if v.groups.contains_key(k) {
        v.groups[k]
    } else {
        GroupView::<T>::empty()
    };
    lemma_insert_wf(group, x, y, image);
}

/// An image that the partition holds is still held after another image was
/// put into another cell.
pub proof fn lemma_insert_keeps<T>(v: GroupsView<T>, held: Image, image: Image)
    requires
        v.holds(held),
        v.cell_key(held) != v.cell_key(image),
    ensures
        v.insert(image).holds(held),
{
}

/// Images that go to different cells are all held once they are put in.
pub proof fn lemma_insert_all_holds<T>(v: GroupsView<T>, images: Seq<Image>)
    requires
        forall|i: int, j: int|
            0 <= i < j < images.len() ==> v.cell_key(#[trigger] images[i]) != v.cell_key(
                #[trigger] images[j],
            ),
    ensures
        forall|i: int| 0 <= i < images.len() ==> v.insert_all(images).holds(#[trigger] images[i]),
    decreases images.len(),
{
    if images.len() > 0 {
        let front = images.drop_last();
        let w = v.insert_all(front);
        lemma_insert_all_holds(v, front);
        lemma_insert_all_len(v, front);
        assert forall|i: int| 0 <= i < images.len() implies v.insert_all(images).holds(
            #[trigger] images[i],
        ) by {
            if i < front.len() {
                assert(w.holds(front[i]));
                assert(w.cell_key(images[i]) == v.cell_key(images[i]));
                assert(w.cell_key(images.last()) == v.cell_key(images[images.len() - 1]));
                lemma_insert_keeps(w, images[i], images.last());
            }
        }
    }
}

/// Putting placeable images into a partition keeps the partition's invariant.
pub proof fn lemma_insert_all_wf<T>(v: GroupsView<T>, images: Seq<Image>)
    requires
        v.wf(),
        forall|i: int| 0 <= i < images.len() ==> (#[trigger] images[i]).wf(),
    ensures
        v.insert_all(images).wf(),
        v.insert_all(images).grid_size == v.grid_size,
        v.insert_all(images).group_size == v.group_size,
    decreases images.len(),
{
    if images.len() > 0 {
        lemma_insert_all_wf(v, images.drop_last());
        lemma_insert_places(v.insert_all(images.drop_last()), images.last());
    }
}

/// Putting images into a partition keeps the grid as it is.
pub proof fn lemma_insert_all_len<T>(v: GroupsView<T>, images: Seq<Image>)
    ensures
        v.insert_all(images).grid_size == v.grid_size,
        v.insert_all(images).group_size == v.group_size,
    decreases images.len(),
{
    if images.len() > 0 {
        lemma_insert_all_len(v, images.drop_last());
    }
}

impl<T> View for Groups<T> {
    type V = GroupsView<T>;

    closed spec fn view(&self) -> GroupsView<T> {
        GroupsView {
            grid_size: (self.grid_size[0], self.grid_size[1]),
            group_size: (self.group_size[0], self.group_size[1]),
            groups: self.groups@.map_values(|g: Group<T>| g@),
        }
    }
}

impl<T> Groups<T> {
    /// The invariant of the partition, stated of its model.
    pub open spec fn wf(&self) -> bool {
        self@.wf()
    }

    /// The width and the height of a group for a grid of `grid_size` cells:
    /// the base-2 logarithm of the grid's width and height, rounded down, and
    /// at least one cell each way.
    pub fn group_size_from_grid_size(grid_size: [u32; 2]) -> (r: [u32; 2])
        ensures
            r[0] == group_extent(grid_size[0]),
            r[1] == group_extent(grid_size[1]),
            r[0] >= 1,
            r[1] >= 1,
    {
        proof {
            lemma_group_extent(grid_size[0]);
            lemma_group_extent(grid_size[1]);
            lemma_bit_length_u32_bound(grid_size[0]);
            lemma_bit_length_u32_bound(grid_size[1]);
        }
        let logs: [u32; 2] = [floor_log2(grid_size[0]), floor_log2(grid_size[1])];
        vec2_max(logs, [1, 1])
    }

    /// The partition of no image, for a grid of `grid_size` cells. The grid
    /// must have a width.
    pub fn new(grid_size: [u32; 2]) -> (r: Groups<T>)
        requires
            grid_size[0] > 0,
        ensures
            r.wf(),
            r@ == GroupsView::<T>::empty(
                (grid_size[0], grid_size[1]),
                (group_extent(grid_size[0]), group_extent(grid_size[1])),
            ),
    {
        let r = Groups {
            grid_size,
            group_size: Self::group_size_from_grid_size(grid_size),
            groups: BTreeMap::new(),
        };
        assert(r@.groups =~= Map::<u64, GroupView<T>>::empty());
        r
    }

    /// The partition of the images `images` over a grid of `grid_size` cells:
    /// they are put in one after the other. The grid must have a width, and
    /// every image's row must lie below `u32::MAX`.
    pub fn from(images: Vec<Image>, grid_size: [u32; 2]) -> (r: Groups<T>)
        requires
            grid_size[0] > 0,
            forall|i: int| 0 <= i < images@.len() ==> placeable(#[trigger] images@[i], grid_size[0]),
        ensures
            r.wf(),
            r@ == GroupsView::<T>::empty(
                (grid_size[0], grid_size[1]),
                (group_extent(grid_size[0]), group_extent(grid_size[1])),
            ).insert_all(images@),
    {
        let mut ret: Groups<T> = Groups::new(grid_size);
        let ghost start = ret@;
        for image in it: images.into_iter()
            invariant
                it.seq() == images@,
                ret.wf(),
                start.grid_size.0 == grid_size[0],
                ret@ == start.insert_all(images@.take(it.index())),
                forall|i: int|
                    0 <= i < images@.len() ==> placeable(#[trigger] images@[i], grid_size[0]),
        {
            proof {
                let n = it.index();
                assert(images@.take(n + 1).drop_last() =~= images@.take(n));
                lemma_insert_all_len(start, images@.take(n));
            }
            ret.insert(image);
        }
        proof {
            assert(images@.take(images@.len() as int) =~= images@);
        }
        ret
    }

    /// Puts the images of the partition into groups anew, for a grid of
    /// `grid_size` cells. Each image goes to the cell that its sequence number
    /// gives in the new grid. The groups are made afresh: no tile is resident in them,
    /// nothing is queued and no job is in flight. The images keep their state.
    ///
    /// The grid must have a width, and every image's row in it must lie below
    /// `u32::MAX`.
    pub fn regroup(&mut self, grid_size: [u32; 2])
        requires
            old(self).wf(),
            grid_size[0] > 0,
            old(self)@.all_placeable(grid_size[0]),
        ensures
            final(self).wf(),
            final(self)@ == old(self)@.regroup(
                (grid_size[0], grid_size[1]),
                (group_extent(grid_size[0]), group_extent(grid_size[1])),
            ),
    {
        let mut groups: BTreeMap<u64, Group<T>> = BTreeMap::new();
        std::mem::swap(&mut groups, &mut self.groups);
        self.grid_size = grid_size;
        self.group_size = Self::group_size_from_grid_size(grid_size);
        let ghost before = old(self)@;
        let ghost start = self@;
        let keys: Vec<u64> = keys_of(&groups);
        let mut n: usize = 0;
        proof {
            assert(start.groups =~= Map::<u64, GroupView<T>>::empty());
            assert(before.groups.dom() =~= groups@.dom());
            lemma_ordered(keys@);
            assert(keys@.take(0) =~= Seq::<u64>::empty());
        }
        while n < keys.len()
            invariant
                n <= keys@.len(),
                keys@.no_duplicates(),
                before == old(self)@,
                before.wf(),
                before.all_placeable(grid_size[0]),
                grid_size[0] > 0,
                start.wf(),
                start.grid_size.0 == grid_size[0],
                self.wf(),
                self@ == start.insert_all(before.images_of(keys@.take(n as int))),
                forall|j: int|
                    n <= j < keys@.len() ==> groups@.contains_key(#[trigger] keys@[j])
                        && before.groups.contains_key(keys@[j]) && groups@[keys@[j]]@
                        == before.groups[keys@[j]],
            decreases keys@.len() - n,
        {
            let ghost done = before.images_of(keys@.take(n as int));
            proof {
                assert(keys@.take(n + 1).drop_last() =~= keys@.take(n as int));
                assert(keys@.take(n + 1).last() == keys@[n as int]);
            }
            match groups.remove(&keys[n]) {
                Some(group) => {
                    let ghost gv = group@;
                    let images: Vec<Image> = group.into_images();
                    proof {
                        assert(done + images@.take(0) =~= done);
                    }
                    for image in it: images.into_iter()
                        invariant
                            it.seq() == images@,
                            self.wf(),
                            start.wf(),
                            start.grid_size.0 == grid_size[0],
                            grid_size[0] > 0,
                            self@ == start.insert_all(done + images@.take(it.index())),
                            forall|i: int|
                                0 <= i < images@.len() ==> placeable(
                                    #[trigger] images@[i],
                                    grid_size[0],
                                ),
                    {
                        proof {
                            let i = it.index();
                            assert((done + images@.take(i + 1)).drop_last() =~= done
                                + images@.take(i));
                            assert((done + images@.take(i + 1)).last() == images@[i]);
                            lemma_insert_all_len(start, done + images@.take(i));
                        }
                        self.insert(image);
                    }
                    proof {
                        assert(images@.take(images@.len() as int) =~= images@);
                    }
                },
                None => {
                    proof {
                        assert(false);
                    }
                },
            }
            n = n + 1;
        }
        proof {
            assert(keys@.take(keys@.len() as int) =~= keys@);
        }
    }

    /// Resets every group: see `Group::reset`.
    pub fn reset(&mut self)
        requires
            old(self).wf(),
        ensures
            final(self).wf(),
            final(self)@ == old(self)@.reset(),
    {
        let keys: Vec<u64> = keys_of(&self.groups);
        let mut n: usize = 0;
        while n < keys.len()
            invariant
                n <= keys@.len(),
                keys@.no_duplicates(),
                keys@.to_set() == old(self)@.groups.dom(),
                old(self).wf(),
                self@.grid_size == old(self)@.grid_size,
                self@.group_size == old(self)@.group_size,
                self@.groups.dom() == old(self)@.groups.dom(),
                forall|j: int|
                    0 <= j < n ==> self@.groups[#[trigger] keys@[j]] == old(self)@.groups[keys@[j]].reset(),
                forall|j: int|
                    n <= j < keys@.len() ==> self@.groups[#[trigger] keys@[j]] == old(self)@.groups[keys@[j]],
            decreases keys@.len() - n,
        {
            let ghost before = self@.groups;
            proof {
                assert(keys@.to_set().contains(keys@[n as int]));
            }
            match map_get_mut(&mut self.groups, keys[n]) {
                Some(group) => {
                    group.reset();
                },
                None => {},
            }
            proof {
                assert(self@.groups.dom() =~= old(self)@.groups.dom());
                assert forall|j: int| 0 <= j < n + 1 implies self@.groups[#[trigger] keys@[j]] == old(self)@.groups[keys@[j]].reset() by {
                    if j < n {
                        assert(before[keys@[j]] == old(self)@.groups[keys@[j]].reset());
                    }
                }
                assert forall|j: int| n + 1 <= j < keys@.len() implies self@.groups[#[trigger] keys@[j]]
                    == old(self)@.groups[keys@[j]] by {
                    assert(before[keys@[j]] == old(self)@.groups[keys@[j]]);
                }
            }
            n = n + 1;
        }
        proof {
            let w = old(self)@.reset();
            assert forall|k: u64| w.groups.contains_key(k) implies self@.groups[k] == w.groups[k]
                && self@.groups[k].wf() by {
                assert(keys@.to_set().contains(k));
                let j = choose|j: int| 0 <= j < keys@.len() && keys@[j] == k;
                assert(self@.groups[keys@[j]] == old(self)@.groups[keys@[j]].reset());
                crate::group_view::lemma_reset_wf(old(self)@.groups[k]);
            }
            assert(self@.groups =~= w.groups);
            assert(self@ =~= w);
        }
    }

    /// Queues every image of every group for a cache check: see
    /// `Group::recheck`.
    pub fn recheck(&mut self)
        requires
            old(self).wf(),
        ensures
            final(self).wf(),
            final(self)@ == old(self)@.recheck(),
    {
        let keys: Vec<u64> = keys_of(&self.groups);
        let mut n: usize = 0;
        while n < keys.len()
            invariant
                n <= keys@.len(),
                keys@.no_duplicates(),
                keys@.to_set() == old(self)@.groups.dom(),
                old(self).wf(),
                self@.grid_size == old(self)@.grid_size,
                self@.group_size == old(self)@.group_size,
                self@.groups.dom() == old(self)@.groups.dom(),
                forall|j: int|
                    0 <= j < n ==> self@.groups[#[trigger] keys@[j]] == old(self)@.groups[keys@[j]].recheck() && self@.groups[keys@[j]].wf(),
                forall|j: int|
                    n <= j < keys@.len() ==> self@.groups[#[trigger] keys@[j]] == old(self)@.groups[keys@[j]],
            decreases keys@.len() - n,
        {
            let ghost before = self@.groups;
            proof {
                assert(keys@.to_set().contains(keys@[n as int]));
            }
            match map_get_mut(&mut self.groups, keys[n]) {
                Some(group) => {
                    group.recheck();
                },
                None => {},
            }
            proof {
                assert(self@.groups.dom() =~= old(self)@.groups.dom());
                assert forall|j: int| 0 <= j < n + 1 implies self@.groups[#[trigger] keys@[j]] == old(self)@.groups[keys@[j]].recheck() && self@.groups[keys@[j]].wf() by {
                    if j < n {
                        assert(before[keys@[j]] == old(self)@.groups[keys@[j]].recheck());
                    }
                }
                assert forall|j: int| n + 1 <= j < keys@.len() implies self@.groups[#[trigger] keys@[j]]
                    == old(self)@.groups[keys@[j]] by {
                    assert(before[keys@[j]] == old(self)@.groups[keys@[j]]);
                }
            }
            n = n + 1;
        }
        proof {
            let w = old(self)@.recheck();
            assert forall|k: u64| w.groups.contains_key(k) implies self@.groups[k] == w.groups[k]
                && self@.groups[k].wf() by {
                assert(keys@.to_set().contains(k));
                let j = choose|j: int| 0 <= j < keys@.len() && keys@[j] == k;
                assert(self@.groups[keys@[j]] == old(self)@.groups[keys@[j]].recheck());
            }
            assert(self@.groups =~= w.groups);
            assert(self@ =~= w);
        }
    }

    /// The width and the height of the grid, in cells.
    pub fn grid_size(&self) -> (r: [u32; 2])
        ensures
            (r[0], r[1]) == self@.grid_size,
    {
        self.grid_size
    }

    /// The width and the height of a group, in cells.
    pub fn group_size(&self) -> (r: [u32; 2])
        ensures
            (r[0], r[1]) == self@.group_size,
    {
        self.group_size
    }

    /// The coordinate of the group that owns a cell.
    pub fn group_coords(&self, coords: [u32; 2]) -> (r: [u32; 2])
        requires
            self.wf(),
        ensures
            coords_key_spec(r) == self@.group_key(coords[0], coords[1]),
    {
        vec2_div(coords, self.group_size)
    }

    /// The coordinates of the groups, in order.
    pub fn keys(&self) -> (out: Vec<[u32; 2]>)
        ensures
            out@.len() == ordered(self@.groups.dom()).len(),
            forall|i: int|
                0 <= i < out@.len() ==> coords_key_spec(#[trigger] out@[i]) == ordered(
                    self@.groups.dom(),
                )[i],
    {
        let keys: Vec<u64> = keys_of(&self.groups);
        let mut out: Vec<[u32; 2]> = Vec::new();
        let mut i: usize = 0;
        while i < keys.len()
            invariant
                i <= keys@.len(),
                out@.len() == i,
                forall|j: int| 0 <= j < i ==> coords_key_spec(#[trigger] out@[j]) == keys@[j],
            decreases keys@.len() - i,
        {
            out.push(key_coords(keys[i]));
            i = i + 1;
        }
        proof {
            lemma_ordered(keys@);
            assert(self@.groups.dom() =~= self.groups@.dom());
        }
        out
    }

    /// The group at a group coordinate, if there is one.
    pub fn group(&self, group_coords: [u32; 2]) -> (r: Option<&Group<T>>)
        ensures
            match r {
                Some(g) => self@.groups.contains_key(coords_key_spec(group_coords)) && g@
                    == self@.groups[coords_key_spec(group_coords)],
                None => !self@.groups.contains_key(coords_key_spec(group_coords)),
            },
    {
        let k: u64 = coords_key(group_coords);
        self.groups.get(&k)
    }

    /// The group at a group coordinate, if there is one, for working on it.
    /// What is done to the group is done to the partition's group at that
    /// coordinate, and to nothing else.
    pub fn group_mut(&mut self, group_coords: [u32; 2]) -> (r: Option<&mut Group<T>>)
        ensures
            match r {
                Some(g) => old(self)@.groups.contains_key(coords_key_spec(group_coords)) && g@
                    == old(self)@.groups[coords_key_spec(group_coords)] && final(self)@ == (
                GroupsView {
                    groups: old(self)@.groups.insert(coords_key_spec(group_coords), final(g)@),
                    ..old(self)@
                }),
                None => !old(self)@.groups.contains_key(coords_key_spec(group_coords)) && final(self)@ == old(self)@,
            },
    {
        let k: u64 = coords_key(group_coords);
        map_get_mut(&mut self.groups, k)
    }

    /// Puts an image into the cell that its sequence number gives, in the
    /// group that owns the cell. The image's row must lie below `u32::MAX`.
    pub fn insert(&mut self, image: Image)
        requires
            old(self).wf(),
            placeable(image, old(self)@.grid_size.0),
        ensures
            final(self).wf(),
            final(self)@ == old(self)@.insert(image),
    {
        proof {
            lemma_insert_places(old(self)@, image);
        }
        let coords: [u32; 2] = i2c(image.i(), self.grid_size);
        let k: u64 = coords_key(vec2_div(coords, self.group_size));
        if !self.groups.contains_key(&k) {
            self.groups.insert(k, Group::new());
        }
        let ghost mid = self.groups@;
        match map_get_mut(&mut self.groups, k) {
            Some(group) => {
                group.insert(coords, image);
            },
            None => {},
        }
        proof {
            assert(self@.groups =~= old(self)@.insert(image).groups);
        }
    }
}

} // verus!
