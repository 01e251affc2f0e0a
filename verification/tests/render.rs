use std::time::{Duration, Instant};
use texture_atlas::render::{RenderState, ROUNDS_TO_A_SECOND};

fn counted(fps: u32, frames: u32, seconds: u64, nanos: u32) -> (u32, u32, bool) {
    let start = Instant::now();
    let now = start + Duration::new(seconds, nanos);
    let mut state = RenderState { fps, frames, fps_counter: start };
    state.count_frame(seconds, nanos, now);
    assert!(state.fps_counter == start || state.fps_counter == now);
    (state.fps, state.frames, state.fps_counter == now && now != start)
}

#[test]
fn new_counter_has_counted_nothing() {
    let state = RenderState::new();
    assert_eq!(state.fps, 0);
    assert_eq!(state.frames, 0);
}

#[test]
fn frame_within_the_second_is_counted_in_it() {
    assert_eq!(counted(60, 17, 0, 300_000_000), (60, 18, false));
    assert_eq!(counted(60, 0, 0, 1), (60, 1, false));
}

#[test]
fn frame_after_a_second_starts_the_next_one() {
    assert_eq!(counted(60, 58, 1, 200_000_000), (58, 1, true));
    assert_eq!(counted(60, 58, 1, 0), (58, 1, true));
}

#[test]
fn frame_after_many_seconds_starts_the_next_one() {
    assert_eq!(counted(3, 0, 90, 0), (0, 1, true));
}

#[test]
fn second_is_taken_in_single_precision() {
    assert_eq!(ROUNDS_TO_A_SECOND, 999_999_968);
    assert_eq!(counted(9, 4, 0, 999_999_967), (9, 5, false));
    assert_eq!(counted(9, 4, 0, 999_999_968), (4, 1, true));
    assert_eq!(counted(9, 4, 0, 999_999_999), (4, 1, true));
}

#[test]
fn second_is_gone_when_the_seconds_as_a_float_reach_one() {
    let samples = [
        (0u64, 0u32),
        (0, 1),
        (0, 500_000_000),
        (0, 999_999_900),
        (0, 999_999_935),
        (0, 999_999_936),
        (0, 999_999_966),
        (0, 999_999_967),
        (0, 999_999_968),
        (0, 999_999_969),
        (0, 999_999_999),
        (1, 0),
        (1, 999_999_999),
        (2, 5),
        (1_000_000, 0),
    ];
    for (seconds, nanos) in samples {
        let gone: bool = Duration::new(seconds, nanos).as_secs_f32() >= 1.0;
        let (_, frames, restarted) = counted(7, 3, seconds, nanos);
        assert_eq!(restarted, gone);
        assert_eq!(frames, if gone { 1 } else { 4 });
    }
}

#[test]
fn update_counts_frames_of_the_running_second() {
    let mut state = RenderState::new();
    state.update();
    state.update();
    state.update();
    assert_eq!(state.fps, 0);
    assert_eq!(state.frames, 3);
}

#[test]
fn update_starts_a_new_second_once_one_has_gone_by() {
    let long_ago = Instant::now().checked_sub(Duration::from_secs(5)).unwrap();
    let mut state = RenderState { fps: 7, frames: 41, fps_counter: long_ago };
    state.update();
    assert_eq!(state.fps, 41);
    assert_eq!(state.frames, 1);
    assert!(state.fps_counter > long_ago);
    state.update();
    assert_eq!(state.fps, 41);
    assert_eq!(state.frames, 2);
}
