use meme_connect::block::Block;
use meme_connect::game_map::GameMap;
use meme_connect::matcher::Matcher;
use meme_connect::shadow::{Meme, ShadowBlend};

#[test]
fn test_shadow_connections() {
    let mut game_map = GameMap::new(6, 6).unwrap();
    game_map.set_meme(1, &Block::new(1, 1)).unwrap();
    game_map.set_meme(1, &Block::new(4, 4)).unwrap();
    let horizontal_shadows = game_map.cast_horizontal_shadows(0, (None, None));
    let horizontal_couples = Matcher::match_same(&horizontal_shadows);
    assert_eq!(horizontal_couples, &[(1, 4)]);
    let vertical_shadows = game_map.cast_vertical_shadows(2, (None, None));
    let vertical_couples = Matcher::match_same(&vertical_shadows);
    assert_eq!(vertical_couples, &[(1, 4)]);
}

#[test]
fn test_wall_subject() {
    const TRACK: &[Meme] = &[1, 0, 0, 0, 0];
    let wall = TRACK.len() - 1;
    let traces = ShadowBlend::from(&TRACK.to_vec(), wall, (None, None));
    assert_eq!(traces.traces[0].as_ref().unwrap().idx, 0);
    assert_eq!(traces.traces[0].as_ref().unwrap().meme, 1);
    assert!(traces.traces[1].is_none());
}

#[test]
fn test_limited_vision() {
    const TRACK: &[Meme] = &[1, 0, 0, 0, 0];
    let wall = TRACK.len() - 1;
    let vision = 1;
    let possible_traces = ShadowBlend::from(&TRACK.to_vec(), wall, (Some(vision), None));
    assert!(possible_traces.traces[0].is_none());
    assert!(possible_traces.traces[1].is_none());
}

#[test]
fn test_wall_blocked() {
    const TRACK: &[Meme] = &[1, 0, 2, 0, 3, 0, 4];
    let wall = 3;
    let vision = 3;
    let traces = ShadowBlend::from(&TRACK.to_vec(), wall, (Some(vision), Some(vision)));
    assert_eq!(traces.traces[0].as_ref().unwrap().idx, 2);
    assert_eq!(traces.traces[0].as_ref().unwrap().meme, 2);
    assert_eq!(traces.traces[1].as_ref().unwrap().idx, 4);
    assert_eq!(traces.traces[1].as_ref().unwrap().meme, 3);
}
