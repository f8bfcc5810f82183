//! The order in which a generated pyramid is written to the store: every
//! tile first, the metadata that refers to them last.

use crate::image::{File, E, R};
use crate::metadata::Metadata;
use crate::tile_ref::TileRef;
use vstd::prelude::*;

verus! {

/// One write to the store.
#[derive(Debug, PartialEq, Eq)]
pub enum Write {
    /// The bytes of the tile at an address.
    Tile { id: TileRef, data: Vec<u8> },
    /// The metadata of the pyramid of a source file.
    Metadata { file: File, metadata: Metadata },
}

/// What a thumbnailer produces for one image: the source file, the metadata
/// of its pyramid, and the bytes of each tile with its address.
pub type Pyramid = (File, Metadata, Vec<(TileRef, Vec<u8>)>);

/// The model of a store: the tiles, by address, and the metadata, by source
/// file.
#[verifier::ext_equal]
pub struct StoreView {
    pub tiles: Map<u64, Vec<u8>>,
    pub metadata: Map<File, Metadata>,
}

impl StoreView {
    /// The store after one write.
    pub open spec fn apply(self, write: Write) -> StoreView {
        match write {
            Write::Tile { id, data } => StoreView { tiles: self.tiles.insert(id.0, data), ..self },
            Write::Metadata { file, metadata } => StoreView {
                metadata: self.metadata.insert(file, metadata),
                ..self
            },
        }
    }

    /// The store after a sequence of writes, in order.
    pub open spec fn apply_all(self, writes: Seq<Write>) -> StoreView
        decreases writes.len(),
    {
        if writes.len() == 0 {
            self
        } else {
            self.apply_all(writes.drop_last()).apply(writes.last())
        }
    }
}

/// Whether `writes` commits a pyramid: one write for each tile, in order, and
/// then the write of the metadata.
pub open spec fn commits(writes: Seq<Write>, pyramid: Pyramid) -> bool {
    &&& writes.len() == pyramid.2@.len() + 1
    &&& forall|i: int|
        0 <= i < pyramid.2@.len() ==> #[trigger] writes[i] == (Write::Tile {
            id: pyramid.2@[i].0,
            data: pyramid.2@[i].1,
        })
    &&& writes.last() == (Write::Metadata { file: pyramid.0, metadata: pyramid.1 })
}

/// The writes that commit the result of a generation job, in the order in
/// which they are to be made, or the job's error.
///
/// For a pyramid the tiles come first, in the order given, and the metadata
/// last, so that no metadata is ever stored before the tiles it refers to.
pub fn update_db(res: R<Pyramid>) -> (r: R<Vec<Write>>)
    ensures
        match res {
            Ok(pyramid) => r is Ok && commits(r->Ok_0@, pyramid),
            Err(e) => r == Err::<Vec<Write>, E>(e),
        },
{
    match res {
        Ok((file, metadata, tiles)) => {
            let mut writes: Vec<Write> = Vec::new();
            for tile in it: tiles.into_iter()
                invariant
                    it.seq() == tiles@,
                    writes@.len() == it.index(),
                    forall|j: int|
                        0 <= j < it.index() ==> #[trigger] writes@[j] == (Write::Tile {
                            id: tiles@[j].0,
                            data: tiles@[j].1,
                        }),
            {
                writes.push(Write::Tile { id: tile.0, data: tile.1 });
            }
            writes.push(Write::Metadata { file, metadata });
            Ok(writes)
        },
        Err(e) => Err(e),
    }
}

/// A commit that is cut short leaves no metadata behind: after any number of
/// its writes but the last, the store holds the metadata it held before, and
/// every tile written so far. After all of its writes the store holds the
/// pyramid's metadata and a tile at each address the pyramid wrote.
pub proof fn lemma_tiles_before_metadata(
    store: StoreView,
    writes: Seq<Write>,
    pyramid: Pyramid,
    done: int,
)
    requires
        commits(writes, pyramid),
        0 <= done <= writes.len(),
    ensures
        done < writes.len() ==> store.apply_all(writes.take(done)).metadata == store.metadata,
        forall|i: int|
            0 <= i < done && i < pyramid.2@.len() ==> store.apply_all(
                writes.take(done),
            ).tiles.contains_key(#[trigger] pyramid.2@[i].0.0),
        done == writes.len() ==> store.apply_all(writes.take(done)).metadata
            == store.metadata.insert(pyramid.0, pyramid.1),
    decreases done,
{
    if done > 0 {
        let before = writes.take(done - 1);
        lemma_tiles_before_metadata(store, writes, pyramid, done - 1);
        assert(writes.take(done).drop_last() =~= before);
        assert(writes.take(done).last() == writes[done - 1]);
        let s0 = store.apply_all(before);
        let s1 = store.apply_all(writes.take(done));
        assert(s1 == s0.apply(writes[done - 1]));
        if done < writes.len() {
            assert(writes[done - 1] == (Write::Tile {
                id: pyramid.2@[done - 1].0,
                data: pyramid.2@[done - 1].1,
            }));
        } else {
            assert(writes[done - 1] == writes.last());
        }
        assert forall|i: int| 0 <= i < done && i < pyramid.2@.len() implies s1.tiles.contains_key(
            #[trigger] pyramid.2@[i].0.0,
        ) by {
            if i < done - 1 {
                assert(s0.tiles.contains_key(pyramid.2@[i].0.0));
            }
        }
    } else {
        assert(writes.take(0) =~= Seq::<Write>::empty());
    }
}

} // verus!
