use pix::group::{CacheAction, Group, ThumbJob, Visibility};
use pix::image::{File, Image, MetadataState, E};
use pix::metadata::{Metadata, Thumb};
use pix::tile_ref::{Pow2, TileRef};

const SEEN: Visibility = Visibility { visible: true, excess: 0 };

fn file(n: usize) -> File {
    File { path: format!("/images/{}.png", n), modified: 10, file_size: 20 }
}

/// A pyramid of levels 64, 256, 1024 and 4096 pixels, with 1, 2, 3 and 4
/// tiles, numbered from `id`.
fn pyramid(id: u64) -> Metadata {
    let dims: [u32; 4] = [64, 256, 1024, 4096];
    let mut thumbs = Vec::new();
    for (j, dim) in dims.iter().enumerate() {
        let mut tile_refs = Vec::new();
        for chunk in 0..(j as u16 + 1) {
            tile_refs.push(TileRef::new(Pow2(6 + 2 * j as u8), id, chunk));
        }
        thumbs.push(Thumb { img_size: [*dim, *dim], tile_refs });
    }
    Metadata { thumbs }
}

fn group_of(n: usize) -> Group<String> {
    let mut g: Group<String> = Group::new();
    for i in 0..n {
        g.insert([i as u32, 0], Image::from(i, file(i)));
    }
    g
}

/// Runs one pass to its end, answering every lookup with `found` and every
/// fetch with one tile for each address. Returns the level that was loaded.
fn pass(g: &mut Group<String>, target: u32, vis: Visibility, found: Option<Metadata>) -> Option<usize> {
    let mut found = Some(found);
    let mut action = g.load_cache(target, vis);
    loop {
        match action {
            CacheAction::Idle => return None,
            CacheAction::Lookup { coords } => {
                let answer = found.take().expect("one lookup for each image");
                action = g.metadata_loaded(coords, Ok(answer), target, vis);
            }
            CacheAction::Fetch { coords: _, level, tile_refs } => {
                let tiles: Vec<String> = tile_refs.iter().map(|t| format!("{:x}", t.0)).collect();
                assert!(g.tiles_loaded(tiles));
                return Some(level);
            }
        }
    }
}

fn resident(g: &Group<String>, m: &Metadata, level: usize) -> usize {
    m.thumbs[level].tile_refs.iter().filter(|t| g.tile(**t).is_some()).count()
}

#[test]
fn empty_queue_is_idle() {
    let mut g = group_of(3);
    assert_eq!(g.load_cache(256, SEEN), CacheAction::Idle);
    assert_eq!(g.next_check(), None);
}

#[test]
fn unknown_image_asks_for_a_lookup() {
    let mut g = group_of(2);
    g.recheck();
    assert_eq!(g.cache_todo_len(), 2);
    assert_eq!(g.next_check(), Some([0, 0]));
    assert_eq!(g.load_cache(256, SEEN), CacheAction::Lookup { coords: [0, 0] });
    assert_eq!(g.cache_todo_len(), 1);
    assert_eq!(g.image([0, 0]).unwrap().metadata(), &MetadataState::Unknown);
}

#[test]
fn lookup_without_metadata_queues_a_thumbnail() {
    let mut g = group_of(1);
    g.recheck();
    assert_eq!(g.load_cache(256, SEEN), CacheAction::Lookup { coords: [0, 0] });
    assert_eq!(g.metadata_loaded([0, 0], Ok(None), 256, SEEN), CacheAction::Idle);
    assert_eq!(g.image([0, 0]).unwrap().metadata(), &MetadataState::Missing);
    assert!(g.image([0, 0]).unwrap().is_missing());
    assert_eq!(g.thumb_todo_len(), 1);
    assert_eq!(g.cache_todo_len(), 0);
}

#[test]
fn failed_lookup_errors_the_image_for_good() {
    let mut g = group_of(1);
    g.recheck();
    assert_eq!(g.load_cache(256, SEEN), CacheAction::Lookup { coords: [0, 0] });
    let failure = Err(E::DatabaseError(String::from("io")));
    assert_eq!(g.metadata_loaded([0, 0], failure, 256, SEEN), CacheAction::Idle);
    assert_eq!(g.image([0, 0]).unwrap().metadata(), &MetadataState::Errored);
    assert_eq!(g.thumb_todo_len(), 0);
    g.recheck();
    assert_eq!(g.load_cache(256, SEEN), CacheAction::Idle);
    assert_eq!(g.image([0, 0]).unwrap().metadata(), &MetadataState::Errored);
    assert_eq!(g.thumb_todo_len(), 0);
    assert!(g.make_thumbs(0).is_empty());
}

#[test]
fn lookup_result_for_a_known_image_changes_nothing() {
    let mut g = group_of(1);
    g.recheck();
    assert_eq!(pass(&mut g, 256, SEEN, None), None);
    assert_eq!(g.metadata_loaded([0, 0], Ok(Some(pyramid(1))), 256, SEEN), CacheAction::Idle);
    assert_eq!(g.image([0, 0]).unwrap().metadata(), &MetadataState::Missing);
    assert_eq!(g.metadata_loaded([9, 9], Ok(Some(pyramid(1))), 256, SEEN), CacheAction::Idle);
    assert!(g.image([9, 9]).is_none());
}

#[test]
fn fetch_names_the_tiles_of_the_next_level() {
    let mut g = group_of(1);
    g.recheck();
    assert_eq!(g.load_cache(4096, SEEN), CacheAction::Lookup { coords: [0, 0] });
    let m = pyramid(5);
    let action = g.metadata_loaded([0, 0], Ok(Some(pyramid(5))), 4096, SEEN);
    assert_eq!(
        action,
        CacheAction::Fetch { coords: [0, 0], level: 1, tile_refs: m.thumbs[1].tile_refs.clone() }
    );
    assert_eq!(g.image([0, 0]).unwrap().size(), None);
    assert!(g.tiles_loaded(vec![String::from("a"), String::from("b")]));
    assert_eq!(g.image([0, 0]).unwrap().size(), Some(1));
    assert_eq!(g.tile(m.thumbs[1].tile_refs[0]), Some(&String::from("a")));
    assert_eq!(g.tile(m.thumbs[1].tile_refs[1]), Some(&String::from("b")));
    assert_eq!(g.next_check(), Some([0, 0]));
}

#[test]
fn stepping_visits_every_level_on_the_way() {
    let m = pyramid(7);
    let mut g = group_of(1);
    g.recheck();
    assert_eq!(pass(&mut g, 256, SEEN, Some(pyramid(7))), Some(1));
    assert_eq!(pass(&mut g, 256, SEEN, None), None);
    g.recheck();
    assert_eq!(pass(&mut g, 1, SEEN, None), Some(0));
    assert_eq!(g.image([0, 0]).unwrap().size(), Some(0));
    assert_eq!(pass(&mut g, 1, SEEN, None), None);

    g.recheck();
    let mut visited = vec![g.image([0, 0]).unwrap().size().unwrap()];
    while let Some(level) = pass(&mut g, 4096, SEEN, None) {
        assert_eq!(g.image([0, 0]).unwrap().size(), Some(level));
        visited.push(level);
        for other in 0..4 {
            let expected = if other == level { m.thumbs[other].tile_refs.len() } else { 0 };
            assert_eq!(resident(&g, &m, other), expected);
        }
    }
    assert_eq!(visited, vec![0, 1, 2, 3]);
    assert_eq!(g.cache_todo_len(), 0);

    g.recheck();
    let mut down = Vec::new();
    while let Some(level) = pass(&mut g, 64, SEEN, None) {
        down.push(level);
    }
    assert_eq!(down, vec![2, 1, 0]);
    assert_eq!(resident(&g, &m, 0), 1);
    assert_eq!(resident(&g, &m, 1) + resident(&g, &m, 2) + resident(&g, &m, 3), 0);
}

#[test]
fn image_at_its_nearest_level_is_left_alone() {
    let mut g = group_of(1);
    g.recheck();
    assert_eq!(pass(&mut g, 64, SEEN, Some(pyramid(7))), None);
    assert_eq!(g.image([0, 0]).unwrap().size(), None);
    assert_eq!(g.cache_todo_len(), 0);
}

#[test]
fn image_out_of_view_degrades() {
    let mut g = group_of(1);
    g.recheck();
    let far = Visibility { visible: false, excess: 4 };
    assert_eq!(pass(&mut g, 4096, far, Some(pyramid(7))), Some(1));
    assert_eq!(pass(&mut g, 4096, far, None), None);
    let hidden_but_flagged_visible = Visibility { visible: true, excess: 4 };
    g.recheck();
    assert_eq!(pass(&mut g, 4096, hidden_but_flagged_visible, None), Some(2));
    let gone = Visibility { visible: false, excess: 40 };
    g.recheck();
    assert_eq!(pass(&mut g, 4096, gone, None), Some(1));
    assert_eq!(pass(&mut g, 4096, gone, None), Some(0));
    assert_eq!(pass(&mut g, 4096, gone, None), None);
}

#[test]
fn resident_tiles_are_not_fetched_again() {
    let shared = TileRef::new(Pow2(8), 1, 0);
    let own = TileRef::new(Pow2(8), 1, 1);
    let m = || Metadata {
        thumbs: vec![
            Thumb { img_size: [64, 64], tile_refs: vec![] },
            Thumb { img_size: [256, 256], tile_refs: vec![shared, own, shared] },
        ],
    };
    let mut g: Group<String> = Group::new();
    g.insert([0, 0], Image::from(0, file(0)));
    g.insert([1, 0], Image::from(1, file(1)));
    g.recheck();
    assert_eq!(g.load_cache(256, SEEN), CacheAction::Lookup { coords: [0, 0] });
    assert_eq!(
        g.metadata_loaded([0, 0], Ok(Some(m())), 256, SEEN),
        CacheAction::Fetch { coords: [0, 0], level: 1, tile_refs: vec![shared, own] }
    );
    assert!(g.tiles_loaded(vec![String::from("s"), String::from("o")]));
    assert_eq!(g.load_cache(256, SEEN), CacheAction::Lookup { coords: [1, 0] });
    assert_eq!(
        g.metadata_loaded([1, 0], Ok(Some(m())), 256, SEEN),
        CacheAction::Fetch { coords: [1, 0], level: 1, tile_refs: vec![] }
    );
    assert!(g.tiles_loaded(vec![]));
    assert_eq!(g.image([1, 0]).unwrap().size(), Some(1));
    assert_eq!(g.tile(shared), Some(&String::from("s")));
}

#[test]
fn tiles_are_refused_without_a_pending_change_or_in_the_wrong_number() {
    let mut g = group_of(1);
    assert!(!g.tiles_loaded(vec![String::from("x")]));
    g.recheck();
    assert_eq!(g.load_cache(4096, SEEN), CacheAction::Lookup { coords: [0, 0] });
    let action = g.metadata_loaded([0, 0], Ok(Some(pyramid(5))), 4096, SEEN);
    assert!(matches!(action, CacheAction::Fetch { level: 1, .. }));
    assert!(!g.tiles_loaded(vec![String::from("only one")]));
    assert_eq!(g.image([0, 0]).unwrap().size(), None);
    assert!(g.tiles_loaded(vec![String::from("a"), String::from("b")]));
    assert!(!g.tiles_loaded(vec![String::from("a"), String::from("b")]));
}

#[test]
fn a_new_pass_gives_up_the_pending_change() {
    let mut g = group_of(2);
    g.recheck();
    assert_eq!(g.load_cache(4096, SEEN), CacheAction::Lookup { coords: [0, 0] });
    let action = g.metadata_loaded([0, 0], Ok(Some(pyramid(5))), 4096, SEEN);
    assert!(matches!(action, CacheAction::Fetch { level: 1, .. }));
    assert_eq!(g.load_cache(4096, SEEN), CacheAction::Lookup { coords: [1, 0] });
    assert!(!g.tiles_loaded(vec![String::from("a"), String::from("b")]));
    assert_eq!(g.image([0, 0]).unwrap().size(), None);
}

#[test]
fn level_change_evicts_the_other_levels() {
    let m = pyramid(3);
    let mut g = group_of(1);
    g.recheck();
    assert_eq!(pass(&mut g, 1024, SEEN, Some(pyramid(3))), Some(1));
    assert_eq!(resident(&g, &m, 1), 2);
    assert_eq!(pass(&mut g, 1024, SEEN, None), Some(2));
    assert_eq!(resident(&g, &m, 1), 0);
    assert_eq!(resident(&g, &m, 2), 3);
    assert_eq!(resident(&g, &m, 0) + resident(&g, &m, 3), 0);
}

#[test]
fn admission_stops_at_two_jobs_in_flight() {
    let mut g = group_of(5);
    g.recheck();
    for _ in 0..5 {
        assert_eq!(pass(&mut g, 256, SEEN, None), None);
    }
    assert_eq!(g.thumb_todo_len(), 5);
    let jobs = g.make_thumbs(1000);
    assert_eq!(
        jobs,
        vec![
            ThumbJob { coords: [0, 0], tile_id_index: 1000 },
            ThumbJob { coords: [1, 0], tile_id_index: 1001 },
        ]
    );
    assert_eq!(g.thumb_handles_len(), 2);
    assert_eq!(g.thumb_todo_len(), 3);
    assert!(g.is_in_flight([0, 0]) && g.is_in_flight([1, 0]) && !g.is_in_flight([2, 0]));
    assert!(g.make_thumbs(1000).is_empty());
    assert_eq!(g.thumb_todo_len(), 3);
}

#[test]
fn no_coordinate_gets_a_second_job() {
    let mut g = group_of(3);
    for _ in 0..3 {
        g.recheck();
        while g.next_check().is_some() {
            assert_eq!(pass(&mut g, 256, SEEN, None), None);
        }
    }
    assert_eq!(g.thumb_todo_len(), 3);
    let mut running: Vec<[u32; 2]> = Vec::new();
    let mut started = 0;
    for round in 0..20 {
        for job in g.make_thumbs(7) {
            assert!(!running.contains(&job.coords));
            running.push(job.coords);
            started += 1;
        }
        assert!(running.len() <= 2);
        assert_eq!(g.thumb_handles_len(), running.len());
        g.recheck();
        while g.next_check().is_some() {
            pass(&mut g, 64, SEEN, None);
        }
        if round % 2 == 1 && !running.is_empty() {
            let coords = running.remove(0);
            assert!(g.recv_thumb(coords, Err(E::ImageError(String::from("corrupt")))));
        }
    }
    assert_eq!(started, 3);
    assert!(running.is_empty());
    assert_eq!(g.thumb_handles_len(), 0);
}

#[test]
fn job_index_is_the_base_id_plus_the_sequence_number() {
    let mut g: Group<String> = Group::new();
    g.insert([4, 2], Image::from(24, file(24)));
    g.recheck();
    assert_eq!(pass(&mut g, 256, SEEN, None), None);
    assert_eq!(g.make_thumbs(500), vec![ThumbJob { coords: [4, 2], tile_id_index: 524 }]);

    let mut w: Group<String> = Group::new();
    w.insert([0, 0], Image::from(3, file(3)));
    w.recheck();
    assert_eq!(pass(&mut w, 256, SEEN, None), None);
    assert_eq!(w.make_thumbs(u64::MAX - 1), vec![ThumbJob { coords: [0, 0], tile_id_index: 1 }]);
}

#[test]
fn finished_job_loads_the_image_and_queues_it_first() {
    let mut g = group_of(3);
    g.recheck();
    assert_eq!(pass(&mut g, 256, SEEN, None), None);
    assert_eq!(g.make_thumbs(0).len(), 1);
    assert_eq!(g.next_check(), Some([1, 0]));
    assert!(g.recv_thumb([0, 0], Ok(pyramid(9))));
    assert_eq!(g.thumb_handles_len(), 0);
    assert_eq!(g.image([0, 0]).unwrap().metadata(), &MetadataState::Loaded(pyramid(9)));
    assert_eq!(g.next_check(), Some([0, 0]));
    assert_eq!(g.cache_todo_len(), 3);
    assert_eq!(pass(&mut g, 256, SEEN, None), Some(1));
}

#[test]
fn failed_job_errors_the_image() {
    let mut g = group_of(1);
    g.recheck();
    assert_eq!(pass(&mut g, 256, SEEN, None), None);
    assert_eq!(g.make_thumbs(0).len(), 1);
    assert!(g.recv_thumb([0, 0], Err(E::ImageError(String::from("unreadable")))));
    assert_eq!(g.image([0, 0]).unwrap().metadata(), &MetadataState::Errored);
    assert_eq!(g.cache_todo_len(), 0);
    assert_eq!(g.thumb_handles_len(), 0);
}

#[test]
fn result_without_a_job_is_not_taken() {
    let mut g = group_of(1);
    assert!(!g.recv_thumb([0, 0], Ok(pyramid(1))));
    assert!(!g.recv_thumb([5, 5], Ok(pyramid(1))));
    assert_eq!(g.image([0, 0]).unwrap().metadata(), &MetadataState::Unknown);
}

#[test]
fn late_result_is_taken_after_a_reset() {
    let mut g = group_of(1);
    g.recheck();
    assert_eq!(pass(&mut g, 256, SEEN, None), None);
    assert_eq!(g.make_thumbs(0).len(), 1);
    g.reset();
    assert_eq!(g.thumb_handles_len(), 1);
    assert_eq!(g.thumb_todo_len(), 0);
    assert!(g.recv_thumb([0, 0], Ok(pyramid(2))));
    assert_eq!(g.image([0, 0]).unwrap().metadata(), &MetadataState::Loaded(pyramid(2)));
}

#[test]
fn reset_forgets_levels_tiles_and_queues() {
    let m = pyramid(3);
    let mut g = group_of(2);
    g.recheck();
    assert_eq!(pass(&mut g, 1024, SEEN, Some(pyramid(3))), Some(1));
    assert_eq!(g.cache_todo_len(), 2);
    g.reset();
    assert_eq!(g.image([0, 0]).unwrap().size(), None);
    assert_eq!(g.image([0, 0]).unwrap().metadata(), &MetadataState::Loaded(pyramid(3)));
    assert_eq!(resident(&g, &m, 1), 0);
    assert_eq!(g.cache_todo_len(), 0);
    assert_eq!(g.thumb_todo_len(), 0);
    assert_eq!(g.coords(), vec![[0, 0], [1, 0]]);
}

#[test]
fn recheck_queues_the_images_in_the_order_of_their_coordinates() {
    let mut g: Group<String> = Group::new();
    for (i, c) in [[2u32, 1u32], [0, 7], [1, 0], [0, 3]].iter().enumerate() {
        g.insert(*c, Image::from(i, file(i)));
    }
    g.recheck();
    assert_eq!(g.coords(), vec![[0, 3], [0, 7], [1, 0], [2, 1]]);
    let mut order = Vec::new();
    while let Some(c) = g.next_check() {
        order.push(c);
        g.load_cache(64, SEEN);
    }
    assert_eq!(order, vec![[0, 3], [0, 7], [1, 0], [2, 1]]);
}

#[test]
fn insert_grows_the_extents() {
    let mut g: Group<String> = Group::new();
    assert_eq!(g.min_extent(), [0, 0]);
    assert_eq!(g.max_extent(), [0, 0]);
    g.insert([3, 4], Image::from(0, file(0)));
    assert_eq!(g.min_extent(), [0, 0]);
    assert_eq!(g.max_extent(), [4, 5]);
    g.insert([9, 1], Image::from(1, file(1)));
    assert_eq!(g.max_extent(), [10, 5]);
    assert_eq!(g.image([3, 4]).unwrap().i(), 0);
    assert_eq!(g.image([9, 1]).unwrap().file(), &file(1));
}

#[test]
fn insert_replaces_the_image_at_a_coordinate() {
    let mut g: Group<String> = Group::new();
    g.insert([1, 1], Image::from(0, file(0)));
    g.insert([1, 1], Image::from(5, file(5)));
    assert_eq!(g.coords(), vec![[1, 1]]);
    assert_eq!(g.image([1, 1]).unwrap().i(), 5);
}

#[test]
fn into_images_hands_the_images_out_in_order() {
    let mut g: Group<String> = Group::new();
    g.insert([2, 0], Image::from(2, file(2)));
    g.insert([0, 1], Image::from(10, file(10)));
    g.insert([0, 0], Image::from(0, file(0)));
    let order: Vec<usize> = g.into_images().iter().map(|img| img.i()).collect();
    assert_eq!(order, vec![0, 10, 2]);
}

#[test]
fn image_record_starts_unknown_and_resets() {
    let mut img = Image::from(4, file(4));
    assert_eq!(img.i(), 4);
    assert_eq!(img.metadata(), &MetadataState::Unknown);
    assert_eq!(img.size(), None);
    assert!(!img.is_missing());
    img.reset();
    assert_eq!(img.size(), None);
    assert_eq!(MetadataState::default(), MetadataState::Unknown);
}
