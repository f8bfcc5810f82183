use pix::group::{CacheAction, Visibility};
use pix::groups::Groups;
use pix::image::{File, Image, MetadataState, E};
use pix::metadata::{Metadata, Thumb};
use pix::tile_ref::{Pow2, TileRef};
use pix::vec2::{coords_key, i2c, key_coords, vec2_div, vec2_max, vec2_min};

const SEEN: Visibility = Visibility { visible: true, excess: 0 };

fn images(n: usize) -> Vec<Image> {
    (0..n)
        .map(|i| Image::from(i, File { path: format!("{:06}.jpg", i), modified: 1, file_size: 2 }))
        .collect()
}

fn one_level(id: u64) -> Metadata {
    Metadata {
        thumbs: vec![
            Thumb { img_size: [32, 32], tile_refs: vec![TileRef::new(Pow2(5), id, 0)] },
            Thumb { img_size: [256, 200], tile_refs: vec![TileRef::new(Pow2(8), id, 0)] },
        ],
    }
}

#[test]
fn vectors_work_component_by_component() {
    assert_eq!(vec2_min([3, 9], [5, 2]), [3, 2]);
    assert_eq!(vec2_max([3, 9], [5, 2]), [5, 9]);
    assert_eq!(vec2_div([17, 9], [5, 2]), [3, 4]);
    assert_eq!(vec2_max([0, 7], [1, 1]), [1, 7]);
}

#[test]
fn cells_follow_the_sequence_number() {
    assert_eq!(i2c(0, [10, 5]), [0, 0]);
    assert_eq!(i2c(9, [10, 5]), [9, 0]);
    assert_eq!(i2c(10, [10, 5]), [0, 1]);
    assert_eq!(i2c(25, [10, 5]), [5, 2]);
    assert_eq!(i2c(7, [1, 1]), [0, 7]);
}

#[test]
fn keys_keep_the_order_of_the_coordinates() {
    assert_eq!(coords_key([0, 0]), 0);
    assert_eq!(coords_key([1, 2]), (1u64 << 32) + 2);
    assert_eq!(key_coords((7u64 << 32) + 9), [7, 9]);
    assert_eq!(key_coords(coords_key([u32::MAX, u32::MAX])), [u32::MAX, u32::MAX]);
    assert!(coords_key([0, u32::MAX]) < coords_key([1, 0]));
}

#[test]
fn images_go_to_the_group_that_owns_their_cell() {
    let groups: Groups<u8> = Groups::from(images(50), [10, 5]);
    assert_eq!(groups.grid_size(), [10, 5]);
    assert_eq!(groups.group_size(), [3, 2]);
    assert_eq!(groups.group_coords([5, 2]), [1, 1]);
    assert_eq!(
        groups.keys(),
        vec![
            [0, 0], [0, 1], [0, 2], [1, 0], [1, 1], [1, 2], [2, 0], [2, 1], [2, 2], [3, 0], [3, 1],
            [3, 2]
        ]
    );
    let g = groups.group([1, 1]).unwrap();
    assert_eq!(g.coords(), vec![[3, 2], [3, 3], [4, 2], [4, 3], [5, 2], [5, 3]]);
    assert_eq!(g.image([5, 2]).unwrap().i(), 25);
    assert_eq!(g.max_extent(), [6, 4]);
    let mut total = 0;
    for k in groups.keys() {
        for c in groups.group(k).unwrap().coords() {
            let img = groups.group(k).unwrap().image(c).unwrap();
            assert_eq!(i2c(img.i(), [10, 5]), c);
            assert_eq!(groups.group_coords(c), k);
            total += 1;
        }
    }
    assert_eq!(total, 50);
}

#[test]
fn a_group_is_at_least_one_cell_each_way() {
    let groups: Groups<u8> = Groups::from(images(4), [2, 2]);
    assert_eq!(groups.group_size(), [1, 1]);
    assert_eq!(groups.keys(), vec![[0, 0], [0, 1], [1, 0], [1, 1]]);
    let none: Groups<u8> = Groups::new([4, 1]);
    assert_eq!(none.group_size(), [2, 1]);
    assert!(none.keys().is_empty());
    assert!(none.group([0, 0]).is_none());
}

#[test]
fn regroup_moves_every_image_to_its_new_group() {
    let mut groups: Groups<u8> = Groups::from(images(30), [6, 5]);
    {
        let g = groups.group_mut([0, 0]).unwrap();
        g.recheck();
        assert_eq!(g.load_cache(256, SEEN), CacheAction::Lookup { coords: [0, 0] });
        let action = g.metadata_loaded([0, 0], Ok(Some(one_level(0))), 256, SEEN);
        assert!(matches!(action, CacheAction::Fetch { level: 1, .. }));
        assert!(g.tiles_loaded(vec![9u8]));
        assert_eq!(g.load_cache(256, SEEN), CacheAction::Lookup { coords: [0, 1] });
        assert_eq!(g.metadata_loaded([0, 1], Ok(None), 256, SEEN), CacheAction::Idle);
        assert_eq!(g.make_thumbs(0).len(), 1);
    }
    groups.regroup([10, 3]);
    assert_eq!(groups.grid_size(), [10, 3]);
    assert_eq!(groups.group_size(), [3, 1]);
    let mut seen = vec![false; 30];
    for k in groups.keys() {
        let g = groups.group(k).unwrap();
        assert_eq!(g.cache_todo_len(), 0);
        assert_eq!(g.thumb_todo_len(), 0);
        assert_eq!(g.thumb_handles_len(), 0);
        assert!(g.tile(TileRef::new(Pow2(8), 0, 0)).is_none());
        for c in g.coords() {
            let img = g.image(c).unwrap();
            assert_eq!(i2c(img.i(), [10, 3]), c);
            assert_eq!(groups.group_coords(c), k);
            assert!(!seen[img.i()]);
            seen[img.i()] = true;
        }
    }
    assert!(seen.iter().all(|s| *s));
    let first = groups.group([0, 0]).unwrap().image([0, 0]).unwrap();
    assert_eq!(first.metadata(), &MetadataState::Loaded(one_level(0)));
    assert_eq!(first.size(), Some(1));
    let sixth = groups.group([2, 0]).unwrap().image([6, 0]).unwrap();
    assert_eq!(sixth.i(), 6);
    assert_eq!(sixth.metadata(), &MetadataState::Missing);
}

#[test]
fn reset_and_recheck_reach_every_group() {
    let mut groups: Groups<u8> = Groups::from(images(12), [4, 3]);
    groups.recheck();
    for k in groups.keys() {
        let g = groups.group(k).unwrap();
        assert_eq!(g.cache_todo_len(), g.coords().len());
    }
    groups.reset();
    for k in groups.keys() {
        assert_eq!(groups.group(k).unwrap().cache_todo_len(), 0);
    }
    assert!(groups.group_mut([7, 7]).is_none());
}

#[test]
fn group_size_is_the_logarithm_of_the_grid_size() {
    let cases: Vec<(u32, u32)> = vec![
        (0, 1),
        (1, 1),
        (2, 1),
        (3, 1),
        (4, 2),
        (7, 2),
        (8, 3),
        (100, 6),
        (1023, 9),
        (1024, 10),
        (u32::MAX, 31),
    ];
    for (cells, extent) in cases {
        assert_eq!(Groups::<u8>::group_size_from_grid_size([cells, 1]), [extent, 1]);
        assert_eq!(Groups::<u8>::group_size_from_grid_size([1, cells]), [1, extent]);
    }
    for cells in 1u32..5000 {
        let float = u32::max(1, f64::from(cells).log(2.0) as u32);
        assert_eq!(Groups::<u8>::group_size_from_grid_size([cells, cells]), [float, float]);
    }
    for k in 1u32..32 {
        for cells in [(1u32 << k) - 1, 1u32 << k, (1u32 << k) + 1] {
            let float = u32::max(1, f64::from(cells).log(2.0) as u32);
            assert_eq!(Groups::<u8>::group_size_from_grid_size([cells, 7]), [float, 2]);
        }
    }
}

#[test]
fn insert_makes_the_group_when_it_is_not_there() {
    let mut groups: Groups<u8> = Groups::new([8, 8]);
    assert_eq!(groups.group_size(), [3, 3]);
    assert!(groups.group([1, 0]).is_none());
    groups.insert(Image::from(5, File::default()));
    assert_eq!(groups.keys(), vec![[1, 0]]);
    assert_eq!(groups.group([1, 0]).unwrap().coords(), vec![[5, 0]]);
    groups.insert(Image::from(4, File::default()));
    assert_eq!(groups.group([1, 0]).unwrap().coords(), vec![[4, 0], [5, 0]]);
    groups.insert(Image::from(6, File::default()));
    assert_eq!(groups.keys(), vec![[1, 0], [2, 0]]);
}

#[test]
fn ten_thousand_images_after_one_pass() {
    let n = 10_000;
    let mut groups: Groups<u8> = Groups::from(images(n), [100, 100]);
    groups.recheck();
    let mut missing = 0;
    let mut loaded = 0;
    let mut errored = 0;
    for k in groups.keys() {
        let g = groups.group_mut(k).unwrap();
        while let Some(c) = g.next_check() {
            let i = g.image(c).unwrap().i();
            let mut action = g.load_cache(32, SEEN);
            loop {
                match action {
                    CacheAction::Idle => break,
                    CacheAction::Lookup { coords } => {
                        assert_eq!(coords, c);
                        let found = match i % 3 {
                            0 => Ok(Some(one_level(i as u64))),
                            1 => Ok(None),
                            _ => Err(E::DecodeError(String::from("bad record"))),
                        };
                        action = g.metadata_loaded(coords, found, 32, SEEN);
                    }
                    CacheAction::Fetch { tile_refs, .. } => {
                        let tiles = vec![0u8; tile_refs.len()];
                        assert!(g.tiles_loaded(tiles));
                        break;
                    }
                }
            }
        }
    }
    let mut queued = 0;
    for k in groups.keys() {
        let g = groups.group(k).unwrap();
        queued += g.thumb_todo_len();
        for c in g.coords() {
            match g.image(c).unwrap().metadata() {
                MetadataState::Unknown => panic!("image {:?} was not looked up", c),
                MetadataState::Missing => missing += 1,
                MetadataState::Loaded(_) => loaded += 1,
                MetadataState::Errored => errored += 1,
            }
        }
    }
    assert_eq!(missing + loaded + errored, n);
    assert_eq!(missing, 3333);
    assert_eq!(loaded, 3334);
    assert_eq!(errored, 3333);
    assert_eq!(queued, missing);
}
