use homemade_ml::utils::next_id;
use homemade_ml::utils::data_loader::DataType;
use homemade_ml::tui::{centered_game_area, key_char, push_recent, HeldKeys, Rect};
use homemade_ml::env::play_snake::SnakeControls;
use homemade_ml::env::memory::Memory;
use homemade_ml::models::dqn::{key_decision, DqnControl, KeyDecision};
use homemade_ml::models::train::chunks_of;

#[test]
fn successive_ids_are_distinct_and_increasing() {
    let mut counter = 0usize;
    let a = next_id(&mut counter);
    let b = next_id(&mut counter);
    let c = next_id(&mut counter);
    assert_eq!((a, b, c), (0, 1, 2));
    assert_eq!(counter, 3);
}

#[test]
fn id_counter_wraps_at_the_top() {
    let mut counter = usize::MAX;
    assert_eq!(next_id(&mut counter), usize::MAX);
    assert_eq!(counter, 0);
}

#[test]
fn data_paths() {
    assert_eq!(DataType::Train.get_path(), "train");
    assert_eq!(DataType::Test.get_path(), "test");
}

#[test]
fn game_area_is_centered_and_twice_as_wide_as_high() {
    let r = centered_game_area(Rect { x: 0, y: 0, width: 100, height: 20 });
    assert_eq!(r, Rect { x: 30, y: 0, width: 40, height: 20 });
    let r = centered_game_area(Rect { x: 2, y: 3, width: 10, height: 40 });
    assert_eq!(r, Rect { x: 2, y: 20, width: 10, height: 5 });
    let r = centered_game_area(Rect { x: 0, y: 0, width: 0, height: 0 });
    assert_eq!(r, Rect { x: 0, y: 0, width: 1, height: 1 });
}

#[test]
fn control_c_is_end_of_text() {
    assert_eq!(key_char('c', true), '\u{3}');
    assert_eq!(key_char('c', false), 'c');
    assert_eq!(key_char('q', true), 'q');
}

#[test]
fn held_keys_track_the_latest_press() {
    let mut keys = HeldKeys::new();
    assert_eq!(keys.current(), None);
    keys.press('a');
    keys.press('d');
    assert_eq!(keys.current(), Some('d'));
    keys.press('a');
    assert_eq!(keys.keys, vec!['d', 'a']);
    keys.release('a');
    assert_eq!(keys.current(), Some('d'));
    keys.clear();
    assert_eq!(keys.current(), None);
}

#[test]
fn recent_points_keep_the_newest() {
    let mut points = vec![1, 2, 3];
    push_recent(&mut points, 4, 3);
    assert_eq!(points, vec![2, 3, 4]);
    push_recent(&mut points, 5, 5);
    assert_eq!(points, vec![2, 3, 4, 5]);
}

#[test]
fn snake_controls_steer_freeze_and_quit() {
    let mut c = SnakeControls::new();
    assert_eq!(c.action, 1);
    assert!(!c.on_key(Some('a')));
    assert_eq!(c.action, 2);
    assert!(!c.on_key(Some('x')));
    assert_eq!(c.action, 2);
    assert!(!c.on_key(Some('D')));
    assert_eq!(c.action, 0);
    assert!(!c.on_key(None));
    assert_eq!(c.action, 1);
    assert!(!c.on_key(Some('f')));
    assert!(c.frozen);
    assert!(!c.on_key(Some('f')));
    assert!(c.frozen);
    assert!(!c.on_key(None));
    assert!(!c.on_key(Some('F')));
    assert!(!c.frozen);
    assert!(c.on_key(Some('q')));
    assert!(c.on_key(Some('\u{3}')));
}

#[test]
fn memory_forgets_the_oldest_when_full() {
    let mut m: Memory<u32> = Memory::new(2, 3);
    m.push(1);
    m.push(2);
    m.push(3);
    assert_eq!(m.memories.iter().copied().collect::<Vec<_>>(), vec![2, 3]);
    let batch = m.batch();
    assert_eq!(batch.len(), 3);
    assert!(batch.iter().all(|x| **x == 2 || **x == 3));
}

#[test]
fn dqn_keys_and_bookkeeping() {
    assert_eq!(key_decision(Some('q')), KeyDecision::Quit);
    assert_eq!(key_decision(Some('\u{3}')), KeyDecision::Quit);
    assert_eq!(key_decision(Some('s')), KeyDecision::SaveAndQuit);
    assert_eq!(key_decision(Some('x')), KeyDecision::Continue);
    assert_eq!(key_decision(None), KeyDecision::Continue);
    let mut c = DqnControl::new(2);
    c.begin_step();
    assert!(!c.should_sync());
    c.begin_step();
    assert!(c.should_sync());
    assert!(c.record_episode(true, 3));
    assert!(!c.record_episode(true, 3));
    assert!(!c.record_episode(false, 9));
    assert_eq!(c.best_fruits_eaten, 3);
}

#[test]
fn chunks_cover_in_order() {
    let v: Vec<usize> = (0..7).collect();
    let c = chunks_of(&v, 3);
    assert_eq!(c, vec![vec![0, 1, 2], vec![3, 4, 5], vec![6]]);
    assert_eq!(chunks_of(&Vec::new(), 4), Vec::<Vec<usize>>::new());
}

#[test]
fn a_png_decodes_to_its_grey_levels() {
    let img = image::GrayImage::from_raw(3, 1, vec![0u8, 128, 255]).unwrap();
    let mut bytes: Vec<u8> = Vec::new();
    image::DynamicImage::ImageLuma8(img)
        .write_to(&mut std::io::Cursor::new(&mut bytes), image::ImageFormat::Png)
        .unwrap();
    assert_eq!(homemade_ml::utils::data_loader::load_bw_png(&bytes), Some(vec![0u8, 128, 255]));
}

#[test]
fn bytes_that_are_no_image_give_none() {
    assert_eq!(homemade_ml::utils::data_loader::load_bw_png(&[1u8, 2, 3, 4]), None);
}
