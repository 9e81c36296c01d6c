use atom01_fw::config::{FRAME_STACK, OBS_DIM};
use atom01_fw::observation::{Observation, STACKED_DIM};

fn bits(x: f32) -> u32 {
    x.to_bits()
}

#[test]
fn new_observation_has_zero_history() {
    let obs = Observation::new();
    assert_eq!(obs.frame_count(), 0);
    let mut dst = [bits(5.0); STACKED_DIM];
    obs.flatten_into(&mut dst);
    assert!(dst.iter().all(|&v| f32::from_bits(v) == 0.0));
}

#[test]
fn push_increments_frame_count_until_full() {
    let mut obs = Observation::new();
    let frame = [bits(1.0); OBS_DIM];
    for i in 1..=FRAME_STACK {
        obs.push(&frame);
        assert_eq!(obs.frame_count(), i.min(FRAME_STACK));
    }
    assert_eq!(obs.frame_count(), FRAME_STACK);
    obs.push(&frame);
    assert_eq!(obs.frame_count(), FRAME_STACK);
}

#[test]
fn flatten_chronological_order_after_fill() {
    let mut obs = Observation::new();
    for i in 0..FRAME_STACK {
        let mut frame = [0; OBS_DIM];
        frame[0] = bits(i as f32);
        obs.push(&frame);
    }
    let mut dst = [0; STACKED_DIM];
    obs.flatten_into(&mut dst);
    for i in 0..FRAME_STACK {
        assert_eq!(f32::from_bits(dst[i * OBS_DIM]), i as f32);
    }
}

#[test]
fn flatten_pads_with_zeros_when_not_full() {
    let mut obs = Observation::new();
    let mut frame = [0; OBS_DIM];
    frame[0] = bits(7.0);
    obs.push(&frame);
    let mut dst = [0; STACKED_DIM];
    obs.flatten_into(&mut dst);
    for i in 0..FRAME_STACK - 1 {
        assert_eq!(f32::from_bits(dst[i * OBS_DIM]), 0.0);
    }
    assert_eq!(f32::from_bits(dst[(FRAME_STACK - 1) * OBS_DIM]), 7.0);
}

#[test]
fn oldest_frames_leave_first() {
    let mut obs = Observation::default();
    for i in 0..23 {
        let mut frame = [0; OBS_DIM];
        for (j, v) in frame.iter_mut().enumerate() {
            *v = bits((i * 100 + j) as f32);
        }
        obs.push(&frame);
    }
    let mut dst = [0; STACKED_DIM];
    obs.flatten_into(&mut dst);
    for f in 0..FRAME_STACK {
        for j in 0..OBS_DIM {
            assert_eq!(f32::from_bits(dst[f * OBS_DIM + j]), ((13 + f) * 100 + j) as f32);
        }
    }
}
