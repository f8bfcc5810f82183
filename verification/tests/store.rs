use pix::image::{File, E};
use pix::metadata::{Metadata, Thumb};
use pix::store::{update_db, Write};
use pix::tile_ref::{Pow2, TileRef};

fn source() -> File {
    File { path: String::from("/a/b.png"), modified: 3, file_size: 4 }
}

fn metadata(refs: &[TileRef]) -> Metadata {
    Metadata { thumbs: vec![Thumb { img_size: [100, 80], tile_refs: refs.to_vec() }] }
}

#[test]
fn metadata_is_written_after_every_tile() {
    let refs = vec![TileRef::new(Pow2(7), 1, 0), TileRef::new(Pow2(7), 1, 1), TileRef::new(Pow2(7), 1, 2)];
    let tiles: Vec<(TileRef, Vec<u8>)> = refs.iter().map(|r| (*r, vec![r.0 as u8, 9])).collect();
    let writes = update_db(Ok((source(), metadata(&refs), tiles))).unwrap();
    assert_eq!(
        writes,
        vec![
            Write::Tile { id: refs[0], data: vec![0, 9] },
            Write::Tile { id: refs[1], data: vec![1, 9] },
            Write::Tile { id: refs[2], data: vec![2, 9] },
            Write::Metadata { file: source(), metadata: metadata(&refs) },
        ]
    );
}

#[test]
fn interrupted_commit_leaves_no_metadata() {
    let refs = vec![TileRef::new(Pow2(7), 4, 0), TileRef::new(Pow2(7), 4, 1)];
    let tiles: Vec<(TileRef, Vec<u8>)> = refs.iter().map(|r| (*r, vec![1, 2, 3])).collect();
    let writes = update_db(Ok((source(), metadata(&refs), tiles))).unwrap();
    for done in 0..writes.len() {
        let mut stored_tiles: Vec<TileRef> = Vec::new();
        let mut stored_metadata: Option<&Metadata> = None;
        for w in writes.iter().take(done) {
            match w {
                Write::Tile { id, .. } => stored_tiles.push(*id),
                Write::Metadata { metadata, .. } => stored_metadata = Some(metadata),
            }
        }
        assert!(stored_metadata.is_none());
        assert_eq!(stored_tiles.len(), done);
    }
    match writes.last().unwrap() {
        Write::Metadata { metadata, .. } => {
            for t in &metadata.thumbs[0].tile_refs {
                let at = writes.iter().position(|w| matches!(w, Write::Tile { id, .. } if id == t));
                assert!(at.unwrap() < writes.len() - 1);
            }
        }
        Write::Tile { .. } => panic!("the last write is not the metadata"),
    }
}

#[test]
fn pyramid_without_tiles_writes_the_metadata_alone() {
    let writes = update_db(Ok((source(), metadata(&[]), vec![]))).unwrap();
    assert_eq!(writes, vec![Write::Metadata { file: source(), metadata: metadata(&[]) }]);
}

#[test]
fn failed_generation_writes_nothing() {
    let failures = vec![
        E::DatabaseError(String::from("d")),
        E::DecodeError(String::from("de")),
        E::EncodeError(String::from("en")),
        E::MissingData(String::from("key")),
        E::ImageError(String::from("i")),
    ];
    for e in failures {
        let text = format!("{:?}", e);
        match update_db(Err(e)) {
            Err(back) => assert_eq!(format!("{:?}", back), text),
            Ok(_) => panic!("a failed job must not be committed"),
        }
    }
}
