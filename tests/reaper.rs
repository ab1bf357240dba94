use pixel_place::canvas::Canvas;
use pixel_place::reaper::{evict, stale_pixels, sweep, PIXEL_LIFETIME_MICROS};
use pixel_place::{cleanup_old_pixels, set_pixel, SweepError};
use spacetimedb::Identity;

fn green_at_zero() -> Canvas {
    let mut c = Canvas::new();
    set_pixel(&mut c, 1, 1, "green".to_string(), 0);
    c
}

#[test]
fn sweep_after_window_removes() {
    let mut c = green_at_zero();
    assert_eq!(sweep(&mut c, 31, 30), 1);
    assert_eq!(c.get(1, 1), None);
}

#[test]
fn sweep_within_window_keeps() {
    let mut c = green_at_zero();
    assert_eq!(sweep(&mut c, 29, 30), 0);
    assert_eq!(c.get(1, 1), Some(("green".to_string(), 0)));
}

#[test]
fn sweep_at_window_edge_keeps() {
    let mut c = green_at_zero();
    assert_eq!(sweep(&mut c, 30, 30), 0);
    assert_eq!(c.len(), 1);
}

#[test]
fn sweep_cutoff_is_now_minus_window() {
    let mut c = Canvas::new();
    set_pixel(&mut c, 0, 0, "old".to_string(), 69);
    set_pixel(&mut c, 0, 1, "new".to_string(), 70);
    assert_eq!(sweep(&mut c, 100, 30), 1);
    assert_eq!(c.get(0, 0), None);
    assert_eq!(c.get(0, 1), Some(("new".to_string(), 70)));
}

#[test]
fn sweep_near_earliest_time_removes_nothing() {
    let mut c = Canvas::new();
    set_pixel(&mut c, 0, 0, "x".to_string(), i64::MIN);
    assert_eq!(sweep(&mut c, i64::MIN + 5, 10), 0);
    assert_eq!(c.len(), 1);
}

#[test]
fn stale_pixels_keeps_snapshot_order() {
    let mut c = Canvas::new();
    set_pixel(&mut c, 1, 0, "a".to_string(), 1);
    set_pixel(&mut c, 2, 0, "b".to_string(), 50);
    set_pixel(&mut c, 3, 0, "c".to_string(), 2);
    let snapshot = c.all();
    assert_eq!(stale_pixels(&snapshot, 10), vec![(1, 0), (3, 0)]);
    assert_eq!(stale_pixels(&snapshot, 1), Vec::<(i32, i32)>::new());
}

#[test]
fn write_after_snapshot_survives_eviction() {
    let mut c = Canvas::new();
    set_pixel(&mut c, 1, 1, "old".to_string(), 0);
    set_pixel(&mut c, 2, 2, "old".to_string(), 0);
    let now = 100;
    let cutoff = now - 30;
    let candidates = stale_pixels(&c.all(), cutoff);
    assert_eq!(candidates.len(), 2);
    set_pixel(&mut c, 1, 1, "fresh".to_string(), now + 1);
    assert_eq!(evict(&mut c, &candidates, cutoff), 1);
    assert_eq!(c.get(1, 1), Some(("fresh".to_string(), 101)));
    assert_eq!(c.get(2, 2), None);
}

#[test]
fn evict_of_vanished_candidate_is_harmless() {
    let mut c = Canvas::new();
    set_pixel(&mut c, 1, 1, "old".to_string(), 0);
    let candidates = stale_pixels(&c.all(), 10);
    c.delete(1, 1);
    assert_eq!(evict(&mut c, &candidates, 10), 0);
    assert_eq!(c.len(), 0);
}

#[test]
fn cleanup_refuses_other_callers() {
    let mut c = Canvas::new();
    set_pixel(&mut c, 1, 1, "green".to_string(), 0);
    let module = Identity::from_byte_array([1u8; 32]);
    let client = Identity::from_byte_array([2u8; 32]);
    let r = cleanup_old_pixels(&mut c, &client, &module, PIXEL_LIFETIME_MICROS * 2);
    assert_eq!(r, Err(SweepError::NotScheduler));
    assert_eq!(
        SweepError::NotScheduler.message(),
        "Reducer `scheduled` may not be invoked by clients, only via scheduling."
    );
    assert_eq!(c.get(1, 1), Some(("green".to_string(), 0)));
    assert_eq!(c.len(), 1);
}

#[test]
fn cleanup_by_scheduler_removes_expired_only() {
    let mut c = Canvas::new();
    let now = PIXEL_LIFETIME_MICROS + 1_000;
    set_pixel(&mut c, 1, 1, "expired".to_string(), 999);
    set_pixel(&mut c, 2, 2, "kept".to_string(), 1_000);
    let module = Identity::from_byte_array([7u8; 32]);
    assert_eq!(cleanup_old_pixels(&mut c, &module, &module, now), Ok(1));
    assert_eq!(c.get(1, 1), None);
    assert_eq!(c.get(2, 2), Some(("kept".to_string(), 1_000)));
}

#[test]
fn retention_window_is_thirty_days() {
    assert_eq!(PIXEL_LIFETIME_MICROS, 30 * 24 * 60 * 60 * 1000 * 1000);
}
