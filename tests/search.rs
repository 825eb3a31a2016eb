use meme_connect::block::{Block, Direction};
use meme_connect::game_map::GameMap;
use meme_connect::line_scan::{Matcher as LineMatcher, ShadowTrace};
use meme_connect::matcher::Matcher;
use meme_connect::shadow::ShadowBlend;
use meme_connect::track::Track;

#[test]
fn row_shadow_scan_and_search_find_the_pair() {
    let mut g = GameMap::new(8, 5).unwrap();
    g.set_meme(1, &Block::new(1, 1)).unwrap();
    g.set_meme(1, &Block::new(4, 1)).unwrap();
    let shadows = g.cast_horizontal_shadows(2, (None, None));
    assert_eq!(Matcher::match_same(&shadows), vec![(1, 4)]);
    assert!(g.still_has_move());
    let path = g.connect(&Block::new(1, 1), &Block::new(4, 1)).unwrap();
    assert_eq!(
        path,
        vec![Block::new(1, 1), Block::new(2, 1), Block::new(3, 1), Block::new(4, 1)]
    );
}

#[test]
fn shadow_scan_misses_a_corner_pair() {
    let mut g = GameMap::new(4, 4).unwrap();
    g.set_meme(7, &Block::new(1, 1)).unwrap();
    g.set_meme(7, &Block::new(2, 2)).unwrap();
    assert!(!g.still_has_move());
    let path = g.connect(&Block::new(1, 1), &Block::new(2, 2)).unwrap();
    assert_eq!(path.len(), 3);
    assert_eq!(path[0], Block::new(1, 1));
    assert_eq!(path[2], Block::new(2, 2));
}

#[test]
fn empty_map_has_no_move() {
    let g = GameMap::new(6, 6).unwrap();
    assert!(!g.still_has_move());
}

#[test]
fn game_map_shape_rules() {
    assert!(GameMap::new(5, 5).is_none());
    assert!(GameMap::new(1, 4).is_none());
    assert!(GameMap::new(0, 4).is_none());
    let g = GameMap::new(4, 5).unwrap();
    assert_eq!(g.playground_blocks(), vec![
        Block::new(1, 1),
        Block::new(1, 2),
        Block::new(1, 3),
        Block::new(2, 1),
        Block::new(2, 2),
        Block::new(2, 3),
    ]);
    assert!(g.check_valid_empty_block(&Block::new(0, 2)).is_err());
    assert!(g.check_valid_empty_block(&Block::new(1, 2)).is_ok());
}

#[test]
fn collect_and_fill_pairs() {
    let mut g = GameMap::new(4, 4).unwrap();
    g.set_meme(3, &Block::new(1, 1)).unwrap();
    let all = g.playground_blocks();
    let mut empty = g.collect_empty_blocks(&all);
    assert_eq!(empty, vec![Block::new(1, 2), Block::new(2, 1), Block::new(2, 2)]);
    g.fill_meme_pairs(&[5], &mut empty).unwrap();
    assert_eq!(empty, vec![Block::new(1, 2)]);
    assert_eq!(g.cell(&Block::new(2, 2)), 5);
    assert_eq!(g.cell(&Block::new(2, 1)), 5);
    assert!(g.set_meme(1, &Block::new(2, 2)).is_err());
}

#[test]
fn shuffled_fill_places_every_pair() {
    let mut g = GameMap::new(6, 6).unwrap();
    let mut regions = g.playground_blocks();
    let mut rng = rand::thread_rng();
    g.set_meme_regions(&[1, 2, 3, 4, 5, 6, 7, 8], &mut regions, &mut rng).unwrap();
    assert!(regions.is_empty());
    let placed: Vec<usize> = g.playground_blocks().iter().map(|b| g.cell(b)).collect();
    for meme in 1..=8 {
        assert_eq!(placed.iter().filter(|&&m| m == meme).count(), 2);
    }
}

#[test]
fn track_search_steps_towards_the_goal() {
    let open = |b: &Block| b.column >= 1 && b.column <= 4 && b.row >= 1 && b.row <= 3;
    let mut track = Track::new(Block::new(1, 1), Block::new(3, 1));
    assert!(!track.goal_found());
    assert!(track.search(&open));
    assert!(!track.search(&open));
    assert!(track.goal_found());
    assert_eq!(track.backtrace(), vec![Block::new(1, 1), Block::new(2, 1), Block::new(3, 1)]);
}

#[test]
fn track_gives_up_when_walled_in() {
    let nothing = |_b: &Block| false;
    let mut track = Track::new(Block::new(2, 2), Block::new(5, 5));
    assert!(!track.search(&nothing));
    assert!(!track.goal_found());
    assert_eq!(track.backtrace(), vec![Block::new(2, 2)]);
}

#[test]
fn block_geometry() {
    let b = Block::new(0, 3);
    assert_eq!(
        b.neighbours(),
        vec![
            (Direction::UP, Block::new(0, 2)),
            (Direction::DOWN, Block::new(0, 4)),
            (Direction::RIGHT, Block::new(1, 3)),
        ]
    );
    assert_eq!(b.distance_sqr(&Block::new(3, 7)), 25);
    assert!(Direction::UP.is_opposite(Direction::DOWN));
    assert!(!Direction::UP.is_opposite(Direction::LEFT));
}

#[test]
fn blend_memes_and_intersection() {
    let a = ShadowBlend::from(&[2, 0, 3], 1, (None, None));
    let b = ShadowBlend::from(&[3, 0, 0, 2], 2, (None, None));
    assert_eq!(a.memes(), vec![2, 3]);
    assert_eq!(b.memes(), vec![3, 2]);
    assert_eq!(a.intersect_meme(&b), vec![2, 3]);
    let blocked = ShadowBlend::from(&[1, 4, 1], 1, (None, None));
    assert!(blocked.blocked);
    assert!(blocked.memes().is_empty());
    let packed = ShadowBlend::pack_from(vec![vec![1, 0, 1], vec![0, 5, 0]], 0, (None, None));
    assert_eq!(packed.len(), 2);
    assert!(packed[0].blocked);
    assert_eq!(packed[1].memes(), vec![5]);
}

#[test]
fn matcher_resets_on_blocked_positions() {
    let wall = vec![
        ShadowBlend::from(&[0, 4], 0, (None, None)),
        ShadowBlend::from(&[9, 9], 0, (None, None)),
        ShadowBlend::from(&[0, 4], 0, (None, None)),
        ShadowBlend::from(&[0, 6], 0, (None, None)),
        ShadowBlend::from(&[0, 4], 0, (None, None)),
    ];
    assert_eq!(Matcher::match_same(&wall), vec![(2, 4)]);
    assert_eq!(Matcher::match_only_meme(&wall, 6), Vec::<(usize, usize)>::new());
    assert_eq!(Matcher::match_only_meme(&wall, 4), vec![(2, 4)]);
}

#[test]
fn line_trace_looks_both_ways() {
    let track = [0, 3, 0, 0, 8, 0];
    assert_eq!(
        ShadowTrace::trace(&track, 2, 5),
        Some(ShadowTrace { pos_on_track: 4, meme: 8 })
    );
    assert_eq!(
        ShadowTrace::trace(&track, 3, 0),
        Some(ShadowTrace { pos_on_track: 1, meme: 3 })
    );
    assert_eq!(ShadowTrace::trace(&track, 2, 3), None);
    let multi = ShadowTrace::trace_multi(&[vec![0, 0, 5], vec![0, 0, 0]], 0, 2);
    assert_eq!(multi, vec![Some(ShadowTrace { pos_on_track: 2, meme: 5 }), None]);
}

#[test]
fn line_matcher_pairs_neighbouring_traces() {
    let wall = vec![
        Some(ShadowTrace { pos_on_track: 0, meme: 2 }),
        None,
        Some(ShadowTrace { pos_on_track: 1, meme: 2 }),
        Some(ShadowTrace { pos_on_track: 5, meme: 3 }),
        Some(ShadowTrace { pos_on_track: 2, meme: 3 }),
    ];
    assert_eq!(LineMatcher::match_same(&wall), vec![(0, 2), (3, 4)]);
    assert_eq!(LineMatcher::match_only_meme(&wall, 3), vec![(3, 4)]);
}

#[test]
fn error_messages_name_the_block() {
    let mut g = GameMap::new(4, 4).unwrap();
    let border = g.check_valid_empty_block(&Block::new(0, 1)).unwrap_err();
    assert!(border.contains("is at border"));
    assert!(border.contains("column: 0"));
    g.set_meme(9, &Block::new(1, 1)).unwrap();
    let occupied = g.check_valid_empty_block(&Block::new(1, 1)).unwrap_err();
    assert!(occupied.contains("occupied with 9"));
    let mut regions = vec![Block::new(1, 1), Block::new(2, 2)];
    let failed = g.fill_meme_pairs(&[4], &mut regions).unwrap_err();
    assert!(failed.starts_with("Cannot set meme at"));
    assert_eq!(g.cell(&Block::new(2, 2)), 4);
}

#[test]
fn shadow_scan_sees_pairs_beyond_one_line() {
    let mut g = GameMap::new(6, 6).unwrap();
    g.set_meme(1, &Block::new(1, 1)).unwrap();
    g.set_meme(1, &Block::new(4, 4)).unwrap();
    assert!(g.still_has_move());
}

#[test]
fn walled_in_search_reports_not_found() {
    let mut g = GameMap::new(6, 6).unwrap();
    g.set_meme(1, &Block::new(1, 1)).unwrap();
    g.set_meme(1, &Block::new(4, 4)).unwrap();
    g.set_meme(2, &Block::new(2, 1)).unwrap();
    g.set_meme(2, &Block::new(1, 2)).unwrap();
    assert_eq!(g.connect(&Block::new(1, 1), &Block::new(4, 4)), Err("Not found".to_string()));
}
